//! The reference-URL algebra: a closed family of URL schemes with a
//! uniform interface (canonical printing, discriminator, git remote
//! derivation, named-component lookup, projection to an `InputSpec`).
//!
//! Parsing and printing are inverse on the grammar: the public lemma
//! `lemma_parse_print` states `print(parse(s)) == s` for every string
//! the parser accepts.
use vstd::prelude::*;

use crate::lockfile::{FlakeType, InputSpec, clone_opt_string, opt_view};
use crate::strs::{contains_char, lemma_find_contains, lemma_spec_find, spec_find, find_char, str_eq};

verus! {

/// Reasons a reference string is rejected.
#[derive(Clone, Copy, Debug, PartialEq, Eq, Structural)]
pub enum FlakeError {
    /// The scheme token matches no known scheme.
    UnknownScheme,
    /// The remainder after the scheme does not fit the scheme's shape.
    BadReference,
}

/// `[flake:]<flake-id>(/<rev-or-ref>(/<rev>)?)?`
#[derive(Clone, Debug)]
pub struct FlakeIndirect {
    pub flake_id: String,
    pub rev_or_ref: Option<String>,
    pub rev: Option<String>,
}

/// `path:<path>(?<params>)?`
#[derive(Clone, Debug)]
pub struct FlakePath {
    pub path: String,
    pub params: Vec<(String, String)>,
}

/// `git(+http|+https|+ssh|+file):(//<server>)?<path>(?<params>)?`
#[derive(Clone, Debug)]
pub struct GitUrl {
    pub scheme: String,
    pub server: Option<String>,
    pub path: String,
    pub params: Vec<(String, String)>,
}

/// `mc(+http|+https|+ssh|+file):(//<server>)?<path>(?<params>)?`
#[derive(Clone, Debug)]
pub struct MercurialUrl {
    pub scheme: String,
    pub server: Option<String>,
    pub path: String,
    pub params: Vec<(String, String)>,
}

/// `tarball(+http|+https|+file)://<url>`
#[derive(Clone, Debug)]
pub struct TarballUrl {
    pub scheme: String,
    pub url: String,
}

/// `(github|gitlab|sourcehut):<owner>/<repo>(/<rev-or-ref>)?(?<params>)?`
#[derive(Clone, Debug)]
pub struct SimpleGitUrl {
    pub scheme: String,
    pub domain: String,
    pub owner: String,
    pub repo: String,
    pub rev_or_ref: Option<String>,
    pub params: Vec<(String, String)>,
}

/// A parsed reference: one of the closed set of variants.
#[derive(Clone, Debug)]
pub enum FlakeRef {
    Indirect(FlakeIndirect),
    Path(FlakePath),
    Git(GitUrl),
    Mercurial(MercurialUrl),
    Tarball(TarballUrl),
    Simple(SimpleGitUrl),
}

pub ghost enum FlakeRefView {
    Indirect { flake_id: Seq<char>, rev_or_ref: Option<Seq<char>>, rev: Option<Seq<char>> },
    Path { path: Seq<char>, params: Seq<(Seq<char>, Seq<char>)> },
    Git {
        scheme: Seq<char>,
        server: Option<Seq<char>>,
        path: Seq<char>,
        params: Seq<(Seq<char>, Seq<char>)>,
    },
    Mercurial {
        scheme: Seq<char>,
        server: Option<Seq<char>>,
        path: Seq<char>,
        params: Seq<(Seq<char>, Seq<char>)>,
    },
    Tarball { scheme: Seq<char>, url: Seq<char> },
    Simple {
        scheme: Seq<char>,
        domain: Seq<char>,
        owner: Seq<char>,
        repo: Seq<char>,
        rev_or_ref: Option<Seq<char>>,
        params: Seq<(Seq<char>, Seq<char>)>,
    },
}

/// View of a parameter list as a sequence of key/value views.
pub open spec fn params_view(ps: Seq<(String, String)>) -> Seq<(Seq<char>, Seq<char>)> {
    Seq::new(ps.len(), |i: int| (ps[i].0@, ps[i].1@))
}

impl View for FlakeRef {
    type V = FlakeRefView;

    open spec fn view(&self) -> FlakeRefView {
        match self {
            FlakeRef::Indirect(r) => FlakeRefView::Indirect {
                flake_id: r.flake_id@,
                rev_or_ref: opt_view(r.rev_or_ref),
                rev: opt_view(r.rev),
            },
            FlakeRef::Path(r) => FlakeRefView::Path {
                path: r.path@,
                params: params_view(r.params@),
            },
            FlakeRef::Git(r) => FlakeRefView::Git {
                scheme: r.scheme@,
                server: opt_view(r.server),
                path: r.path@,
                params: params_view(r.params@),
            },
            FlakeRef::Mercurial(r) => FlakeRefView::Mercurial {
                scheme: r.scheme@,
                server: opt_view(r.server),
                path: r.path@,
                params: params_view(r.params@),
            },
            FlakeRef::Tarball(r) => FlakeRefView::Tarball { scheme: r.scheme@, url: r.url@ },
            FlakeRef::Simple(r) => FlakeRefView::Simple {
                scheme: r.scheme@,
                domain: r.domain@,
                owner: r.owner@,
                repo: r.repo@,
                rev_or_ref: opt_view(r.rev_or_ref),
                params: params_view(r.params@),
            },
        }
    }
}

// ------------------------------------------------------------------
// Printing, at the specification level
// ------------------------------------------------------------------

/// `k1=v1&k2=v2&...` for a nonempty parameter list, empty otherwise.
pub open spec fn query_string(ps: Seq<(Seq<char>, Seq<char>)>) -> Seq<char>
    decreases ps.len(),
{
    if ps.len() == 0 {
        Seq::empty()
    } else if ps.len() == 1 {
        ps[0].0 + "="@ + ps[0].1
    } else {
        query_string(ps.drop_last()) + "&"@ + ps.last().0 + "="@ + ps.last().1
    }
}

/// The `?`-suffix of a printed URL; empty parameters print nothing.
pub open spec fn params_suffix(ps: Seq<(Seq<char>, Seq<char>)>) -> Seq<char> {
    if ps.len() == 0 {
        Seq::empty()
    } else {
        "?"@ + query_string(ps)
    }
}

/// An optional `/`-prefixed segment.
pub open spec fn opt_seg(o: Option<Seq<char>>) -> Seq<char> {
    match o {
        Some(s) => "/"@ + s,
        None => Seq::empty(),
    }
}

/// An optional `//`-prefixed server part.
pub open spec fn server_part(o: Option<Seq<char>>) -> Seq<char> {
    match o {
        Some(s) => "//"@ + s,
        None => Seq::empty(),
    }
}

/// The canonical string form of a reference.
pub open spec fn print_view(v: FlakeRefView) -> Seq<char> {
    match v {
        FlakeRefView::Indirect { flake_id, rev_or_ref, rev } => "flake:"@ + flake_id + opt_seg(
            rev_or_ref,
        ) + opt_seg(rev),
        FlakeRefView::Path { path, params } => "path:"@ + path + params_suffix(params),
        FlakeRefView::Git { scheme, server, path, params } => "git+"@ + scheme + ":"@ + server_part(
            server,
        ) + path + params_suffix(params),
        FlakeRefView::Mercurial { scheme, server, path, params } => "mc+"@ + scheme + ":"@
            + server_part(server) + path + params_suffix(params),
        FlakeRefView::Tarball { scheme, url } => "tarball+"@ + scheme + "://"@ + url,
        FlakeRefView::Simple { scheme, domain, owner, repo, rev_or_ref, params } => scheme + ":"@
            + owner + "/"@ + repo + opt_seg(rev_or_ref) + params_suffix(params),
    }
}

// ------------------------------------------------------------------
// Well-formedness: the shapes the grammar can produce
// ------------------------------------------------------------------

pub open spec fn param_wf(p: (Seq<char>, Seq<char>)) -> bool {
    &&& !contains_char(p.0, '&')
    &&& !contains_char(p.0, '=')
    &&& !contains_char(p.1, '&')
}

pub open spec fn params_wf(ps: Seq<(Seq<char>, Seq<char>)>) -> bool {
    forall|i: int| 0 <= i < ps.len() ==> param_wf(#[trigger] ps[i])
}

/// A nonempty path segment without `/`.
pub open spec fn seg_wf(s: Seq<char>) -> bool {
    s.len() > 0 && !contains_char(s, '/')
}

pub open spec fn opt_seg_wf(o: Option<Seq<char>>) -> bool {
    match o {
        Some(s) => seg_wf(s),
        None => true,
    }
}

pub open spec fn git_scheme_wf(s: Seq<char>) -> bool {
    s == "http"@ || s == "https"@ || s == "ssh"@ || s == "file"@
}

pub open spec fn tarball_scheme_wf(s: Seq<char>) -> bool {
    s == "http"@ || s == "https"@ || s == "file"@
}

pub open spec fn simple_scheme_wf(s: Seq<char>) -> bool {
    s == "github"@ || s == "gitlab"@ || s == "sourcehut"@
}

/// The host-prefix of the derived https remote, per provider.
pub open spec fn domain_of(scheme: Seq<char>) -> Seq<char> {
    if scheme == "gitlab"@ {
        "gitlab.com/"@
    } else if scheme == "sourcehut"@ {
        "git.sr.ht/~"@
    } else {
        "github.com/"@
    }
}

/// A server/path pair as it can come out of the server-url grammar.
pub open spec fn server_path_wf(server: Option<Seq<char>>, path: Seq<char>) -> bool {
    &&& path.len() > 0
    &&& !contains_char(path, '?')
    &&& match server {
        Some(s) => {
            &&& s.len() > 0
            &&& !contains_char(s, '/')
            &&& !contains_char(s, '?')
            &&& path[0] == '/'
        },
        None => (path.len() >= 3 && path[0] == '/' && path[1] == '/') ==> path[2] == '/',
    }
}

pub open spec fn wf_view(v: FlakeRefView) -> bool {
    match v {
        FlakeRefView::Indirect { flake_id, rev_or_ref, rev } => {
            &&& seg_wf(flake_id)
            &&& opt_seg_wf(rev_or_ref)
            &&& opt_seg_wf(rev)
            &&& rev is Some ==> rev_or_ref is Some
        },
        FlakeRefView::Path { path, params } => {
            &&& path.len() > 0
            &&& !contains_char(path, '?')
            &&& params_wf(params)
        },
        FlakeRefView::Git { scheme, server, path, params } => {
            &&& git_scheme_wf(scheme)
            &&& server_path_wf(server, path)
            &&& params_wf(params)
        },
        FlakeRefView::Mercurial { scheme, server, path, params } => {
            &&& git_scheme_wf(scheme)
            &&& server_path_wf(server, path)
            &&& params_wf(params)
        },
        FlakeRefView::Tarball { scheme, url } => {
            &&& tarball_scheme_wf(scheme)
            &&& url.len() > 0
        },
        FlakeRefView::Simple { scheme, domain, owner, repo, rev_or_ref, params } => {
            &&& simple_scheme_wf(scheme)
            &&& domain == domain_of(scheme)
            &&& seg_wf(owner)
            &&& !contains_char(owner, '?')
            &&& seg_wf(repo)
            &&& !contains_char(repo, '?')
            &&& match rev_or_ref {
                Some(s) => s.len() > 0 && !contains_char(s, '?'),
                None => true,
            }
            &&& params_wf(params)
        },
    }
}

// ------------------------------------------------------------------
// Parsing, at the specification level
// ------------------------------------------------------------------

/// One `key=value` piece: split at the first `=`.
pub open spec fn parse_piece(p: Seq<char>) -> Option<(Seq<char>, Seq<char>)> {
    let ei = spec_find(p, '=');
    if ei < 0 {
        None
    } else {
        Some((p.subrange(0, ei), p.subrange(ei + 1, p.len() as int)))
    }
}

/// A nonempty `&`-separated query string.
pub open spec fn parse_query(q: Seq<char>) -> Option<Seq<(Seq<char>, Seq<char>)>>
    decreases q.len(),
{
    if q.len() == 0 {
        None
    } else {
        let ai = spec_find(q, '&');
        if ai < 0 {
            match parse_piece(q) {
                Some(p) => Some(seq![p]),
                None => None,
            }
        } else if 0 <= ai < q.len() {
            match parse_piece(q.subrange(0, ai)) {
                Some(p) => match parse_query(q.subrange(ai + 1, q.len() as int)) {
                    Some(ps) => Some(seq![p] + ps),
                    None => None,
                },
                None => None,
            }
        } else {
            // unreachable: the index of a found character lies in range
            None
        }
    }
}

/// A trailing `?<query>` part: `qi` is the index of `?` in `rest`, or
/// negative when there is none.
pub open spec fn parse_opt_query(rest: Seq<char>, qi: int) -> Option<Seq<(Seq<char>, Seq<char>)>> {
    if qi < 0 {
        Some(Seq::empty())
    } else {
        parse_query(rest.subrange(qi + 1, rest.len() as int))
    }
}

pub open spec fn parse_indirect_view(rest: Seq<char>) -> Option<FlakeRefView> {
    let i1 = spec_find(rest, '/');
    if i1 < 0 {
        if rest.len() == 0 {
            None
        } else {
            Some(FlakeRefView::Indirect { flake_id: rest, rev_or_ref: None, rev: None })
        }
    } else {
        let id = rest.subrange(0, i1);
        let r2 = rest.subrange(i1 + 1, rest.len() as int);
        let i2 = spec_find(r2, '/');
        if id.len() == 0 {
            None
        } else if i2 < 0 {
            if r2.len() == 0 {
                None
            } else {
                Some(FlakeRefView::Indirect { flake_id: id, rev_or_ref: Some(r2), rev: None })
            }
        } else {
            let rr = r2.subrange(0, i2);
            let r3 = r2.subrange(i2 + 1, r2.len() as int);
            if rr.len() == 0 || r3.len() == 0 || spec_find(r3, '/') >= 0 {
                None
            } else {
                Some(FlakeRefView::Indirect { flake_id: id, rev_or_ref: Some(rr), rev: Some(r3) })
            }
        }
    }
}

pub open spec fn parse_path_view(rest: Seq<char>) -> Option<FlakeRefView> {
    let qi = spec_find(rest, '?');
    let path = if qi < 0 { rest } else { rest.subrange(0, qi) };
    if path.len() == 0 {
        None
    } else {
        match parse_opt_query(rest, qi) {
            Some(ps) => Some(FlakeRefView::Path { path, params: ps }),
            None => None,
        }
    }
}

/// `(//<server>)?<path>(?<params>)?`, shared by git and mercurial.
pub open spec fn parse_server_url_view(rest: Seq<char>) -> Option<
    (Option<Seq<char>>, Seq<char>, Seq<(Seq<char>, Seq<char>)>),
> {
    if rest.len() >= 3 && rest[0] == '/' && rest[1] == '/' && rest[2] != '/' {
        let after = rest.subrange(2, rest.len() as int);
        let si = spec_find(after, '/');
        if si < 0 {
            None
        } else {
            let server = after.subrange(0, si);
            if contains_char(server, '?') {
                None
            } else {
                let tail = after.subrange(si, after.len() as int);
                let qi = spec_find(tail, '?');
                let path = if qi < 0 { tail } else { tail.subrange(0, qi) };
                match parse_opt_query(tail, qi) {
                    Some(ps) => Some((Some(server), path, ps)),
                    None => None,
                }
            }
        }
    } else {
        let qi = spec_find(rest, '?');
        let path = if qi < 0 { rest } else { rest.subrange(0, qi) };
        if path.len() == 0 {
            None
        } else {
            match parse_opt_query(rest, qi) {
                Some(ps) => Some((None, path, ps)),
                None => None,
            }
        }
    }
}

pub open spec fn parse_git_view(scheme: Seq<char>, rest: Seq<char>) -> Option<FlakeRefView> {
    match parse_server_url_view(rest) {
        Some((server, path, params)) => Some(
            FlakeRefView::Git { scheme, server, path, params },
        ),
        None => None,
    }
}

pub open spec fn parse_mercurial_view(scheme: Seq<char>, rest: Seq<char>) -> Option<FlakeRefView> {
    match parse_server_url_view(rest) {
        Some((server, path, params)) => Some(
            FlakeRefView::Mercurial { scheme, server, path, params },
        ),
        None => None,
    }
}

pub open spec fn parse_tarball_view(scheme: Seq<char>, rest: Seq<char>) -> Option<FlakeRefView> {
    if rest.len() >= 3 && rest[0] == '/' && rest[1] == '/' {
        Some(FlakeRefView::Tarball { scheme, url: rest.subrange(2, rest.len() as int) })
    } else {
        None
    }
}

pub open spec fn parse_simple_view(scheme: Seq<char>, rest: Seq<char>) -> Option<FlakeRefView> {
    let i1 = spec_find(rest, '/');
    if i1 <= 0 {
        None
    } else {
        let owner = rest.subrange(0, i1);
        if contains_char(owner, '?') {
            None
        } else {
            let after = rest.subrange(i1 + 1, rest.len() as int);
            let qi = spec_find(after, '?');
            let head = if qi < 0 { after } else { after.subrange(0, qi) };
            match parse_opt_query(after, qi) {
                Some(ps) => {
                    let i2 = spec_find(head, '/');
                    if i2 < 0 {
                        if head.len() == 0 {
                            None
                        } else {
                            Some(FlakeRefView::Simple {
                                scheme,
                                domain: domain_of(scheme),
                                owner,
                                repo: head,
                                rev_or_ref: None,
                                params: ps,
                            })
                        }
                    } else {
                        let repo = head.subrange(0, i2);
                        let rr = head.subrange(i2 + 1, head.len() as int);
                        if repo.len() == 0 || rr.len() == 0 {
                            None
                        } else {
                            Some(FlakeRefView::Simple {
                                scheme,
                                domain: domain_of(scheme),
                                owner,
                                repo,
                                rev_or_ref: Some(rr),
                                params: ps,
                            })
                        }
                    }
                },
                None => None,
            }
        }
    }
}

/// The second half of the scheme table.
pub open spec fn known_scheme_b(s: Seq<char>) -> bool {
    ||| s == "mc+ssh"@
    ||| s == "mc+file"@
    ||| s == "tarball+http"@
    ||| s == "tarball+https"@
    ||| s == "tarball+file"@
    ||| s == "github"@
    ||| s == "gitlab"@
    ||| s == "sourcehut"@
}

pub open spec fn known_scheme(s: Seq<char>) -> bool {
    ||| s == "flake"@
    ||| s == "path"@
    ||| s == "git+http"@
    ||| s == "git+https"@
    ||| s == "git+ssh"@
    ||| s == "git+file"@
    ||| s == "mc+http"@
    ||| s == "mc+https"@
    ||| s == "mc+ssh"@
    ||| s == "mc+file"@
    ||| s == "tarball+http"@
    ||| s == "tarball+https"@
    ||| s == "tarball+file"@
    ||| s == "github"@
    ||| s == "gitlab"@
    ||| s == "sourcehut"@
}

/// The first half of the scheme table.
pub open spec fn known_scheme_a(s: Seq<char>) -> bool {
    ||| s == "flake"@
    ||| s == "path"@
    ||| s == "git+http"@
    ||| s == "git+https"@
    ||| s == "git+ssh"@
    ||| s == "git+file"@
    ||| s == "mc+http"@
    ||| s == "mc+https"@
}

/// Dispatch over the first half of the scheme table.
pub open spec fn dispatch_a_view(scheme: Seq<char>, rest: Seq<char>) -> Option<FlakeRefView> {
    {
        if scheme == "flake"@ {
            parse_indirect_view(rest)
        } else if scheme == "path"@ {
            parse_path_view(rest)
        } else if scheme == "git+http"@ {
            parse_git_view("http"@, rest)
        } else if scheme == "git+https"@ {
            parse_git_view("https"@, rest)
        } else if scheme == "git+ssh"@ {
            parse_git_view("ssh"@, rest)
        } else if scheme == "git+file"@ {
            parse_git_view("file"@, rest)
        } else if scheme == "mc+http"@ {
            parse_mercurial_view("http"@, rest)
        } else if scheme == "mc+https"@ {
            parse_mercurial_view("https"@, rest)
        } else {
            None
        }
    }
}

/// Dispatch over the second half of the scheme table.
pub open spec fn dispatch_b_view(scheme: Seq<char>, rest: Seq<char>) -> Option<FlakeRefView> {
    {
        if scheme == "mc+ssh"@ {
            parse_mercurial_view("ssh"@, rest)
        } else if scheme == "mc+file"@ {
            parse_mercurial_view("file"@, rest)
        } else if scheme == "tarball+http"@ {
            parse_tarball_view("http"@, rest)
        } else if scheme == "tarball+https"@ {
            parse_tarball_view("https"@, rest)
        } else if scheme == "tarball+file"@ {
            parse_tarball_view("file"@, rest)
        } else if scheme == "github"@ {
            parse_simple_view("github"@, rest)
        } else if scheme == "gitlab"@ {
            parse_simple_view("gitlab"@, rest)
        } else if scheme == "sourcehut"@ {
            parse_simple_view("sourcehut"@, rest)
        } else {
            None
        }
    }
}

/// Dispatch on an already-split scheme token.
pub open spec fn dispatch_view(scheme: Seq<char>, rest: Seq<char>) -> Option<FlakeRefView> {
    if known_scheme_a(scheme) {
        dispatch_a_view(scheme, rest)
    } else {
        dispatch_b_view(scheme, rest)
    }
}

/// The whole grammar: split at the first `:`, dispatch on the scheme.
pub open spec fn parse_view(s: Seq<char>) -> Option<FlakeRefView> {
    let ci = spec_find(s, ':');
    if ci < 0 {
        None
    } else {
        dispatch_view(s.subrange(0, ci), s.subrange(ci + 1, s.len() as int))
    }
}

// ------------------------------------------------------------------
// The round-trip law: printing a parse yields the input back
// ------------------------------------------------------------------

/// Character-level content of the scheme and separator literals.
proof fn lemma_lits()
    ensures
        "flake:"@ == "flake"@ + ":"@,
        "path:"@ == "path"@ + ":"@,
        "git+http"@ == "git+"@ + "http"@,
        "git+https"@ == "git+"@ + "https"@,
        "git+ssh"@ == "git+"@ + "ssh"@,
        "git+file"@ == "git+"@ + "file"@,
        "mc+http"@ == "mc+"@ + "http"@,
        "mc+https"@ == "mc+"@ + "https"@,
        "mc+ssh"@ == "mc+"@ + "ssh"@,
        "mc+file"@ == "mc+"@ + "file"@,
        "tarball+http"@ == "tarball+"@ + "http"@,
        "tarball+https"@ == "tarball+"@ + "https"@,
        "tarball+file"@ == "tarball+"@ + "file"@,
        ":"@ == seq![':'],
        "/"@ == seq!['/'],
        "?"@ == seq!['?'],
        "="@ == seq!['='],
        "&"@ == seq!['&'],
        "//"@ == seq!['/', '/'],
        "://"@ == seq![':', '/', '/'],
{
    reveal_strlit("flake:");
    reveal_strlit("flake");
    reveal_strlit("path:");
    reveal_strlit("path");
    reveal_strlit("git+http");
    reveal_strlit("git+https");
    reveal_strlit("git+ssh");
    reveal_strlit("git+file");
    reveal_strlit("git+");
    reveal_strlit("mc+http");
    reveal_strlit("mc+https");
    reveal_strlit("mc+ssh");
    reveal_strlit("mc+file");
    reveal_strlit("mc+");
    reveal_strlit("tarball+http");
    reveal_strlit("tarball+https");
    reveal_strlit("tarball+file");
    reveal_strlit("tarball+");
    reveal_strlit("http");
    reveal_strlit("https");
    reveal_strlit("ssh");
    reveal_strlit("file");
    reveal_strlit(":");
    reveal_strlit("/");
    reveal_strlit("?");
    reveal_strlit("=");
    reveal_strlit("&");
    reveal_strlit("//");
    reveal_strlit("://");
    assert("flake:"@ =~= "flake"@ + ":"@);
    assert("path:"@ =~= "path"@ + ":"@);
    assert("git+http"@ =~= "git+"@ + "http"@);
    assert("git+https"@ =~= "git+"@ + "https"@);
    assert("git+ssh"@ =~= "git+"@ + "ssh"@);
    assert("git+file"@ =~= "git+"@ + "file"@);
    assert("mc+http"@ =~= "mc+"@ + "http"@);
    assert("mc+https"@ =~= "mc+"@ + "https"@);
    assert("mc+ssh"@ =~= "mc+"@ + "ssh"@);
    assert("mc+file"@ =~= "mc+"@ + "file"@);
    assert("tarball+http"@ =~= "tarball+"@ + "http"@);
    assert("tarball+https"@ =~= "tarball+"@ + "https"@);
    assert("tarball+file"@ =~= "tarball+"@ + "file"@);
    assert(":"@ =~= seq![':']);
    assert("/"@ =~= seq!['/']);
    assert("?"@ =~= seq!['?']);
    assert("="@ =~= seq!['=']);
    assert("&"@ =~= seq!['&']);
    assert("//"@ =~= seq!['/', '/']);
    assert("://"@ =~= seq![':', '/', '/']);
}

/// A character missing from a sequence is missing from its subranges.
proof fn lemma_no_char_subrange(s: Seq<char>, c: char, a: int, b: int)
    requires
        !contains_char(s, c),
        0 <= a <= b <= s.len(),
    ensures
        !contains_char(s.subrange(a, b), c),
{
    if contains_char(s.subrange(a, b), c) {
        let j = choose|j: int| 0 <= j < b - a && s.subrange(a, b)[j] == c;
        assert(s[a + j] == c);
    }
}

/// Splitting at the first occurrence of `c` recomposes the sequence.
proof fn lemma_split_recompose(s: Seq<char>, c: char)
    requires
        spec_find(s, c) >= 0,
    ensures
        s =~= s.subrange(0, spec_find(s, c)) + seq![c] + s.subrange(
            spec_find(s, c) + 1,
            s.len() as int,
        ),
        !contains_char(s.subrange(0, spec_find(s, c)), c),
{
    lemma_spec_find(s, c);
    let i = spec_find(s, c);
    assert(s[i] == c);
    if contains_char(s.subrange(0, i), c) {
        let j = choose|j: int| 0 <= j < i && s.subrange(0, i)[j] == c;
        assert(s[j] == c);
    }
}

/// When the first occurrence is absent, the sequence is untouched.
proof fn lemma_absent(s: Seq<char>, c: char)
    requires
        spec_find(s, c) < 0,
    ensures
        !contains_char(s, c),
{
    lemma_find_contains(s, c);
}

proof fn lemma_query_string_cons(p: (Seq<char>, Seq<char>), ps: Seq<(Seq<char>, Seq<char>)>)
    requires
        ps.len() >= 1,
    ensures
        query_string(seq![p] + ps) == p.0 + "="@ + p.1 + "&"@ + query_string(ps),
    decreases ps.len(),
{
    let t = seq![p] + ps;
    if ps.len() == 1 {
        assert(t.len() == 2);
        assert(t.drop_last() =~= seq![p]);
        assert(t.last() == ps[0]);
        assert(query_string(ps) == ps[0].0 + "="@ + ps[0].1);
        assert(query_string(t) == query_string(seq![p]) + "&"@ + t.last().0 + "="@ + t.last().1);
        assert(query_string(seq![p]) == p.0 + "="@ + p.1);
        assert(p.0 + "="@ + p.1 + "&"@ + (ps[0].0 + "="@ + ps[0].1) =~= p.0 + "="@ + p.1 + "&"@
            + ps[0].0 + "="@ + ps[0].1);
    } else {
        lemma_query_string_cons(p, ps.drop_last());
        assert(t.drop_last() =~= seq![p] + ps.drop_last());
        assert(t.last() == ps.last());
        assert(query_string(t) == query_string(seq![p] + ps.drop_last()) + "&"@ + ps.last().0 + "="@
            + ps.last().1);
        assert(query_string(ps) == query_string(ps.drop_last()) + "&"@ + ps.last().0 + "="@
            + ps.last().1);
        assert(p.0 + "="@ + p.1 + "&"@ + query_string(ps.drop_last()) + "&"@ + ps.last().0 + "="@
            + ps.last().1 =~= p.0 + "="@ + p.1 + "&"@ + (query_string(ps.drop_last()) + "&"@
            + ps.last().0 + "="@ + ps.last().1));
    }
}

proof fn lemma_parse_piece(p: Seq<char>)
    requires
        parse_piece(p) is Some,
        !contains_char(p, '&'),
    ensures
        ({
            let pair = parse_piece(p)->Some_0;
            &&& pair.0 + "="@ + pair.1 =~= p
            &&& param_wf(pair)
        }),
{
    lemma_lits();
    let ei = spec_find(p, '=');
    lemma_spec_find(p, '=');
    lemma_split_recompose(p, '=');
    lemma_no_char_subrange(p, '&', 0, ei);
    lemma_no_char_subrange(p, '&', ei + 1, p.len() as int);
}

proof fn lemma_parse_query(q: Seq<char>)
    requires
        parse_query(q) is Some,
    ensures
        ({
            let ps = parse_query(q)->Some_0;
            &&& query_string(ps) =~= q
            &&& params_wf(ps)
            &&& ps.len() >= 1
        }),
    decreases q.len(),
{
    lemma_lits();
    let ps = parse_query(q)->Some_0;
    let ai = spec_find(q, '&');
    if ai < 0 {
        lemma_absent(q, '&');
        lemma_parse_piece(q);
        let pair = parse_piece(q)->Some_0;
        assert(ps =~= seq![pair]);
        assert(query_string(ps) == pair.0 + "="@ + pair.1);
    } else {
        lemma_spec_find(q, '&');
        lemma_split_recompose(q, '&');
        let piece = q.subrange(0, ai);
        let qrest = q.subrange(ai + 1, q.len() as int);
        lemma_parse_piece(piece);
        lemma_parse_query(qrest);
        let pair = parse_piece(piece)->Some_0;
        let ps2 = parse_query(qrest)->Some_0;
        assert(ps == seq![pair] + ps2);
        lemma_query_string_cons(pair, ps2);
        assert(query_string(ps) == pair.0 + "="@ + pair.1 + "&"@ + query_string(ps2));
        assert(pair.0 + "="@ + pair.1 + "&"@ + query_string(ps2) =~= (pair.0 + "="@ + pair.1)
            + seq!['&'] + query_string(ps2));
        assert(query_string(ps) =~= q);
        assert forall|i: int| 0 <= i < ps.len() implies param_wf(#[trigger] ps[i]) by {
            if i > 0 {
                assert(ps[i] == ps2[i - 1]);
            }
        }
    }
}

/// Path plus optional query recomposes `rest`, with well-formed params.
proof fn lemma_split_query(rest: Seq<char>)
    requires
        parse_opt_query(rest, spec_find(rest, '?')) is Some,
    ensures
        ({
            let qi = spec_find(rest, '?');
            let path = if qi < 0 { rest } else { rest.subrange(0, qi) };
            let ps = parse_opt_query(rest, qi)->Some_0;
            &&& path + params_suffix(ps) =~= rest
            &&& params_wf(ps)
            &&& !contains_char(path, '?')
            &&& (ps.len() == 0 <==> qi < 0)
        }),
{
    lemma_lits();
    let qi = spec_find(rest, '?');
    let ps = parse_opt_query(rest, qi)->Some_0;
    if qi < 0 {
        lemma_absent(rest, '?');
        assert(rest + params_suffix(ps) =~= rest);
    } else {
        lemma_split_recompose(rest, '?');
        let path = rest.subrange(0, qi);
        let q = rest.subrange(qi + 1, rest.len() as int);
        lemma_parse_query(q);
        assert(params_suffix(ps) == "?"@ + query_string(ps));
        assert(path + ("?"@ + query_string(ps)) =~= path + seq!['?'] + query_string(ps));
        assert(path + params_suffix(ps) =~= rest);
    }
}

proof fn lemma_parse_indirect(rest: Seq<char>)
    requires
        parse_indirect_view(rest) is Some,
    ensures
        ({
            let v = parse_indirect_view(rest)->Some_0;
            &&& wf_view(v)
            &&& "flake:"@ + rest =~= print_view(v)
        }),
{
    lemma_lits();
    let v = parse_indirect_view(rest)->Some_0;
    let i1 = spec_find(rest, '/');
    if i1 < 0 {
        lemma_absent(rest, '/');
        assert(print_view(v) =~= "flake:"@ + rest);
    } else {
        lemma_split_recompose(rest, '/');
        let id = rest.subrange(0, i1);
        let r2 = rest.subrange(i1 + 1, rest.len() as int);
        let i2 = spec_find(r2, '/');
        if i2 < 0 {
            lemma_absent(r2, '/');
            assert(print_view(v) == "flake:"@ + id + ("/"@ + r2) + Seq::<char>::empty());
            assert("flake:"@ + id + ("/"@ + r2) + Seq::<char>::empty() =~= "flake:"@ + (id
                + seq!['/'] + r2));
            assert("flake:"@ + (id + seq!['/'] + r2) =~= "flake:"@ + rest);
        } else {
            lemma_split_recompose(r2, '/');
            let rr = r2.subrange(0, i2);
            let r3 = r2.subrange(i2 + 1, r2.len() as int);
            lemma_absent(r3, '/');
            assert(print_view(v) == "flake:"@ + id + ("/"@ + rr) + ("/"@ + r3));
            assert("flake:"@ + id + ("/"@ + rr) + ("/"@ + r3) =~= "flake:"@ + (id + seq!['/'] + (rr
                + seq!['/'] + r3)));
            assert(id + seq!['/'] + (rr + seq!['/'] + r3) =~= rest);
        }
    }
}

proof fn lemma_parse_path(rest: Seq<char>)
    requires
        parse_path_view(rest) is Some,
    ensures
        ({
            let v = parse_path_view(rest)->Some_0;
            &&& wf_view(v)
            &&& "path:"@ + rest =~= print_view(v)
        }),
{
    lemma_lits();
    lemma_split_query(rest);
    let v = parse_path_view(rest)->Some_0;
    assert(print_view(v) =~= "path:"@ + rest);
}

proof fn lemma_parse_server_url(rest: Seq<char>)
    requires
        parse_server_url_view(rest) is Some,
    ensures
        ({
            let (server, path, params) = parse_server_url_view(rest)->Some_0;
            &&& server_path_wf(server, path)
            &&& params_wf(params)
            &&& server_part(server) + path + params_suffix(params) =~= rest
        }),
{
    lemma_lits();
    let (server, path, params) = parse_server_url_view(rest)->Some_0;
    if rest.len() >= 3 && rest[0] == '/' && rest[1] == '/' && rest[2] != '/' {
        let after = rest.subrange(2, rest.len() as int);
        let si = spec_find(after, '/');
        lemma_spec_find(after, '/');
        lemma_split_recompose(after, '/');
        assert(after[0] != '/');
        assert(si > 0);
        let tail = after.subrange(si, after.len() as int);
        assert(after =~= after.subrange(0, si) + tail);
        assert(tail[0] == '/');
        lemma_split_query(tail);
        assert(server_part(server) + path + params_suffix(params) =~= seq!['/', '/']
            + after.subrange(0, si) + tail);
        assert(seq!['/', '/'] + after.subrange(0, si) + tail =~= seq!['/', '/'] + after);
        assert(seq!['/', '/'] + after =~= rest);
    } else {
        lemma_split_query(rest);
        assert(server_part(server) =~= Seq::<char>::empty());
        assert(server_part(server) + path + params_suffix(params) =~= rest);
        // the guard rules out a server-like prefix surviving in `path`
        let qi = spec_find(rest, '?');
        if qi >= 0 {
            lemma_spec_find(rest, '?');
        }
    }
}

proof fn lemma_parse_simple(scheme: Seq<char>, rest: Seq<char>)
    requires
        parse_simple_view(scheme, rest) is Some,
        simple_scheme_wf(scheme),
    ensures
        ({
            let v = parse_simple_view(scheme, rest)->Some_0;
            &&& wf_view(v)
            &&& scheme + ":"@ + rest =~= print_view(v)
        }),
{
    lemma_lits();
    let v = parse_simple_view(scheme, rest)->Some_0;
    let i1 = spec_find(rest, '/');
    lemma_split_recompose(rest, '/');
    let owner = rest.subrange(0, i1);
    let after = rest.subrange(i1 + 1, rest.len() as int);
    lemma_split_query(after);
    let qi = spec_find(after, '?');
    let head = if qi < 0 { after } else { after.subrange(0, qi) };
    let ps = parse_opt_query(after, qi)->Some_0;
    let i2 = spec_find(head, '/');
    if i2 < 0 {
        lemma_absent(head, '/');
        assert(print_view(v) == scheme + ":"@ + owner + "/"@ + head + Seq::<char>::empty()
            + params_suffix(ps));
        assert(scheme + ":"@ + owner + "/"@ + head + Seq::<char>::empty() + params_suffix(ps) =~=
            scheme + seq![':'] + (owner + seq!['/'] + (head + params_suffix(ps))));
        assert(head + params_suffix(ps) =~= after);
        assert(scheme + seq![':'] + (owner + seq!['/'] + after) =~= scheme + ":"@ + rest);
    } else {
        lemma_spec_find(head, '/');
        lemma_split_recompose(head, '/');
        let repo = head.subrange(0, i2);
        let rr = head.subrange(i2 + 1, head.len() as int);
        lemma_no_char_subrange(head, '?', 0, i2);
        lemma_no_char_subrange(head, '?', i2 + 1, head.len() as int);
        assert(print_view(v) == scheme + ":"@ + owner + "/"@ + repo + ("/"@ + rr) + params_suffix(
            ps,
        ));
        assert(scheme + ":"@ + owner + "/"@ + repo + ("/"@ + rr) + params_suffix(ps) =~= scheme
            + seq![':'] + (owner + seq!['/'] + ((repo + seq!['/'] + rr) + params_suffix(ps))));
        assert(repo + seq!['/'] + rr =~= head);
        assert(head + params_suffix(ps) =~= after);
        assert(scheme + seq![':'] + (owner + seq!['/'] + after) =~= scheme + ":"@ + rest);
    }
}

/// Printing a successful parse yields the input string back, and the
/// parsed reference is well-formed.
pub proof fn lemma_parse_print(s: Seq<char>)
    requires
        parse_view(s) is Some,
    ensures
        print_view(parse_view(s)->Some_0) == s,
        wf_view(parse_view(s)->Some_0),
{
    lemma_lits();
    let v = parse_view(s)->Some_0;
    let ci = spec_find(s, ':');
    lemma_split_recompose(s, ':');
    let scheme = s.subrange(0, ci);
    let rest = s.subrange(ci + 1, s.len() as int);
    assert(s =~= scheme + seq![':'] + rest);
    if scheme == "flake"@ {
        lemma_parse_indirect(rest);
        assert(print_view(v) =~= "flake"@ + seq![':'] + rest);
        assert(print_view(v) =~= s);
    } else if scheme == "path"@ {
        lemma_parse_path(rest);
        assert(print_view(v) =~= "path"@ + seq![':'] + rest);
        assert(print_view(v) =~= s);
    } else if scheme == "git+http"@ || scheme == "git+https"@ || scheme == "git+ssh"@ || scheme
        == "git+file"@ {
        lemma_parse_server_url(rest);
        let (server, path, params) = parse_server_url_view(rest)->Some_0;
        let inner = if scheme == "git+http"@ {
            "http"@
        } else if scheme == "git+https"@ {
            "https"@
        } else if scheme == "git+ssh"@ {
            "ssh"@
        } else {
            "file"@
        };
        assert(print_view(v) == "git+"@ + inner + ":"@ + server_part(server) + path
            + params_suffix(params));
        assert("git+"@ + inner + ":"@ + server_part(server) + path + params_suffix(params) =~= ("git+"@
            + inner) + seq![':'] + (server_part(server) + path + params_suffix(params)));
        assert(("git+"@ + inner) =~= scheme);
        assert(print_view(v) =~= s);
    } else if scheme == "mc+http"@ || scheme == "mc+https"@ || scheme == "mc+ssh"@ || scheme
        == "mc+file"@ {
        lemma_parse_server_url(rest);
        let (server, path, params) = parse_server_url_view(rest)->Some_0;
        let inner = if scheme == "mc+http"@ {
            "http"@
        } else if scheme == "mc+https"@ {
            "https"@
        } else if scheme == "mc+ssh"@ {
            "ssh"@
        } else {
            "file"@
        };
        assert(print_view(v) == "mc+"@ + inner + ":"@ + server_part(server) + path + params_suffix(
            params,
        ));
        assert("mc+"@ + inner + ":"@ + server_part(server) + path + params_suffix(params) =~= ("mc+"@
            + inner) + seq![':'] + (server_part(server) + path + params_suffix(params)));
        assert(("mc+"@ + inner) =~= scheme);
        assert(print_view(v) =~= s);
    } else if scheme == "tarball+http"@ || scheme == "tarball+https"@ || scheme == "tarball+file"@ {
        let inner = if scheme == "tarball+http"@ {
            "http"@
        } else if scheme == "tarball+https"@ {
            "https"@
        } else {
            "file"@
        };
        let url = rest.subrange(2, rest.len() as int);
        assert(rest =~= seq!['/', '/'] + url);
        assert(print_view(v) == "tarball+"@ + inner + "://"@ + url);
        assert("tarball+"@ + inner + "://"@ + url =~= ("tarball+"@ + inner) + seq![':'] + (seq![
            '/',
            '/',
        ] + url));
        assert(("tarball+"@ + inner) =~= scheme);
        assert(print_view(v) =~= s);
    } else if scheme == "github"@ || scheme == "gitlab"@ || scheme == "sourcehut"@ {
        lemma_parse_simple(scheme, rest);
        assert(print_view(v) =~= scheme + seq![':'] + rest);
        assert(print_view(v) =~= s);
    }
}

// ------------------------------------------------------------------
// Executable parsing
// ------------------------------------------------------------------

fn parse_piece_ex(p: &str) -> (r: Result<(String, String), FlakeError>)
    ensures
        match r {
            Ok(pair) => parse_piece(p@) == Some((pair.0@, pair.1@)),
            Err(e) => parse_piece(p@) is None && e == FlakeError::BadReference,
        },
{
    let len = p.unicode_len();
    match find_char(p, '=') {
        None => Err(FlakeError::BadReference),
        Some(ei) => {
            proof {
                lemma_spec_find(p@, '=');
            }
            let k = p.substring_char(0, ei).to_owned();
            let v = p.substring_char(ei + 1, len).to_owned();
            Ok((k, v))
        },
    }
}

fn parse_query_ex(q: &str) -> (r: Result<Vec<(String, String)>, FlakeError>)
    ensures
        match r {
            Ok(ps) => parse_query(q@) == Some(params_view(ps@)),
            Err(e) => parse_query(q@) is None && e == FlakeError::BadReference,
        },
    decreases q@.len(),
{
    let len = q.unicode_len();
    if len == 0 {
        return Err(FlakeError::BadReference);
    }
    match find_char(q, '&') {
        None => {
            match parse_piece_ex(q) {
                Ok(pair) => {
                    let mut ps: Vec<(String, String)> = Vec::new();
                    let ghost pv = (pair.0@, pair.1@);
                    ps.push(pair);
                    proof {
                        assert(params_view(ps@) =~= seq![pv]);
                    }
                    Ok(ps)
                },
                Err(e) => Err(e),
            }
        },
        Some(ai) => {
            proof {
                lemma_spec_find(q@, '&');
            }
            let piece = q.substring_char(0, ai);
            let qrest = q.substring_char(ai + 1, len);
            match parse_piece_ex(piece) {
                Ok(pair) => {
                    match parse_query_ex(qrest) {
                        Ok(mut ps) => {
                            let ghost pv = (pair.0@, pair.1@);
                            let ghost tailv = params_view(ps@);
                            ps.insert(0, pair);
                            proof {
                                assert(params_view(ps@) =~= seq![pv] + tailv);
                            }
                            Ok(ps)
                        },
                        Err(e) => Err(e),
                    }
                },
                Err(e) => Err(e),
            }
        },
    }
}

/// The part after `?` at position `qi`, or no parameters at all.
fn parse_opt_query_ex(rest: &str, qi: Option<usize>) -> (r: Result<
    Vec<(String, String)>,
    FlakeError,
>)
    requires
        match qi {
            Some(i) => spec_find(rest@, '?') == i as int,
            None => spec_find(rest@, '?') == -1,
        },
    ensures
        match r {
            Ok(ps) => parse_opt_query(rest@, spec_find(rest@, '?')) == Some(params_view(ps@)),
            Err(e) => parse_opt_query(rest@, spec_find(rest@, '?')) is None && e == FlakeError::BadReference,
        },
{
    match qi {
        None => {
            let ps: Vec<(String, String)> = Vec::new();
            proof {
                assert(params_view(ps@) =~= Seq::<(Seq<char>, Seq<char>)>::empty());
            }
            Ok(ps)
        },
        Some(i) => {
            proof {
                lemma_spec_find(rest@, '?');
            }
            let len = rest.unicode_len();
            parse_query_ex(rest.substring_char(i + 1, len))
        },
    }
}

impl FlakeIndirect {
    pub fn parse(url: &str) -> (r: Result<FlakeIndirect, FlakeError>)
        ensures
            match r {
                Ok(x) => parse_indirect_view(url@) == Some(FlakeRef::Indirect(x)@),
                Err(e) => parse_indirect_view(url@) is None && e == FlakeError::BadReference,
            },
    {
        let len = url.unicode_len();
        match find_char(url, '/') {
            None => {
                if len == 0 {
                    Err(FlakeError::BadReference)
                } else {
                    Ok(FlakeIndirect { flake_id: url.to_owned(), rev_or_ref: None, rev: None })
                }
            },
            Some(i1) => {
                proof {
                    lemma_spec_find(url@, '/');
                }
                if i1 == 0 {
                    return Err(FlakeError::BadReference);
                }
                let id = url.substring_char(0, i1).to_owned();
                let r2 = url.substring_char(i1 + 1, len);
                let l2 = r2.unicode_len();
                match find_char(r2, '/') {
                    None => {
                        if l2 == 0 {
                            Err(FlakeError::BadReference)
                        } else {
                            Ok(
                                FlakeIndirect {
                                    flake_id: id,
                                    rev_or_ref: Some(r2.to_owned()),
                                    rev: None,
                                },
                            )
                        }
                    },
                    Some(i2) => {
                        proof {
                            lemma_spec_find(r2@, '/');
                        }
                        if i2 == 0 {
                            return Err(FlakeError::BadReference);
                        }
                        let rr = r2.substring_char(0, i2).to_owned();
                        let r3 = r2.substring_char(i2 + 1, l2);
                        if r3.unicode_len() == 0 {
                            return Err(FlakeError::BadReference);
                        }
                        match find_char(r3, '/') {
                            Some(_) => Err(FlakeError::BadReference),
                            None => Ok(
                                FlakeIndirect {
                                    flake_id: id,
                                    rev_or_ref: Some(rr),
                                    rev: Some(r3.to_owned()),
                                },
                            ),
                        }
                    },
                }
            },
        }
    }
}

impl FlakePath {
    pub fn parse(url: &str) -> (r: Result<FlakePath, FlakeError>)
        ensures
            match r {
                Ok(x) => parse_path_view(url@) == Some(FlakeRef::Path(x)@),
                Err(e) => parse_path_view(url@) is None && e == FlakeError::BadReference,
            },
    {
        let len = url.unicode_len();
        let qi = find_char(url, '?');
        proof {
            if qi is Some {
                lemma_spec_find(url@, '?');
            }
        }
        let path = match qi {
            None => url,
            Some(i) => url.substring_char(0, i),
        };
        if path.unicode_len() == 0 {
            return Err(FlakeError::BadReference);
        }
        match parse_opt_query_ex(url, qi) {
            Ok(params) => Ok(FlakePath { path: path.to_owned(), params }),
            Err(e) => Err(e),
        }
    }
}

/// `(//<server>)?<path>(?<params>)?`, shared by git and mercurial.
fn parse_server_url_ex(rest: &str) -> (r: Result<
    (Option<String>, String, Vec<(String, String)>),
    FlakeError,
>)
    ensures
        match r {
            Ok((server, path, params)) => parse_server_url_view(rest@) == Some(
                (opt_view(server), path@, params_view(params@)),
            ),
            Err(e) => parse_server_url_view(rest@) is None && e == FlakeError::BadReference,
        },
{
    let len = rest.unicode_len();
    if len >= 3 && rest.get_char(0) == '/' && rest.get_char(1) == '/' && rest.get_char(2) != '/' {
        let after = rest.substring_char(2, len);
        let alen = after.unicode_len();
        match find_char(after, '/') {
            None => Err(FlakeError::BadReference),
            Some(si) => {
                proof {
                    lemma_spec_find(after@, '/');
                }
                let server = after.substring_char(0, si);
                match find_char(server, '?') {
                    Some(_) => {
                        proof {
                            lemma_find_contains(server@, '?');
                        }
                        Err(FlakeError::BadReference)
                    },
                    None => {
                        proof {
                            lemma_find_contains(server@, '?');
                        }
                        let tail = after.substring_char(si, alen);
                        let tlen = tail.unicode_len();
                        let qi = find_char(tail, '?');
                        proof {
                            if qi is Some {
                                lemma_spec_find(tail@, '?');
                            }
                        }
                        let path = match qi {
                            None => tail,
                            Some(i) => tail.substring_char(0, i),
                        };
                        match parse_opt_query_ex(tail, qi) {
                            Ok(params) => Ok(
                                (Some(server.to_owned()), path.to_owned(), params),
                            ),
                            Err(e) => Err(e),
                        }
                    },
                }
            },
        }
    } else {
        let qi = find_char(rest, '?');
        proof {
            if qi is Some {
                lemma_spec_find(rest@, '?');
            }
        }
        let path = match qi {
            None => rest,
            Some(i) => rest.substring_char(0, i),
        };
        if path.unicode_len() == 0 {
            return Err(FlakeError::BadReference);
        }
        match parse_opt_query_ex(rest, qi) {
            Ok(params) => Ok((None, path.to_owned(), params)),
            Err(e) => Err(e),
        }
    }
}

impl GitUrl {
    pub fn parse(scheme: &str, url: &str) -> (r: Result<GitUrl, FlakeError>)
        ensures
            match r {
                Ok(x) => parse_git_view(scheme@, url@) == Some(FlakeRef::Git(x)@),
                Err(e) => parse_git_view(scheme@, url@) is None && e == FlakeError::BadReference,
            },
    {
        match parse_server_url_ex(url) {
            Ok((server, path, params)) => Ok(
                GitUrl { scheme: scheme.to_owned(), server, path, params },
            ),
            Err(e) => Err(e),
        }
    }
}

impl MercurialUrl {
    pub fn parse(scheme: &str, url: &str) -> (r: Result<MercurialUrl, FlakeError>)
        ensures
            match r {
                Ok(x) => parse_mercurial_view(scheme@, url@) == Some(FlakeRef::Mercurial(x)@),
                Err(e) => parse_mercurial_view(scheme@, url@) is None && e == FlakeError::BadReference,
            },
    {
        match parse_server_url_ex(url) {
            Ok((server, path, params)) => Ok(
                MercurialUrl { scheme: scheme.to_owned(), server, path, params },
            ),
            Err(e) => Err(e),
        }
    }
}

impl TarballUrl {
    pub fn parse(scheme: &str, url: &str) -> (r: Result<TarballUrl, FlakeError>)
        ensures
            match r {
                Ok(x) => parse_tarball_view(scheme@, url@) == Some(FlakeRef::Tarball(x)@),
                Err(e) => parse_tarball_view(scheme@, url@) is None && e == FlakeError::BadReference,
            },
    {
        let len = url.unicode_len();
        if len >= 3 && url.get_char(0) == '/' && url.get_char(1) == '/' {
            Ok(TarballUrl { scheme: scheme.to_owned(), url: url.substring_char(2, len).to_owned() })
        } else {
            Err(FlakeError::BadReference)
        }
    }
}

impl SimpleGitUrl {
    pub fn parse(scheme: &str, domain: &str, url: &str) -> (r: Result<SimpleGitUrl, FlakeError>)
        requires
            domain@ == domain_of(scheme@),
        ensures
            match r {
                Ok(x) => parse_simple_view(scheme@, url@) == Some(FlakeRef::Simple(x)@),
                Err(e) => parse_simple_view(scheme@, url@) is None && e == FlakeError::BadReference,
            },
    {
        let len = url.unicode_len();
        match find_char(url, '/') {
            None => Err(FlakeError::BadReference),
            Some(i1) => {
                proof {
                    lemma_spec_find(url@, '/');
                }
                if i1 == 0 {
                    return Err(FlakeError::BadReference);
                }
                let owner = url.substring_char(0, i1);
                match find_char(owner, '?') {
                    Some(_) => {
                        proof {
                            lemma_find_contains(owner@, '?');
                        }
                        Err(FlakeError::BadReference)
                    },
                    None => {
                        proof {
                            lemma_find_contains(owner@, '?');
                        }
                        let after = url.substring_char(i1 + 1, len);
                        let alen = after.unicode_len();
                        let qi = find_char(after, '?');
                        proof {
                            if qi is Some {
                                lemma_spec_find(after@, '?');
                            }
                        }
                        let head = match qi {
                            None => after,
                            Some(i) => after.substring_char(0, i),
                        };
                        let params = match parse_opt_query_ex(after, qi) {
                            Ok(ps) => ps,
                            Err(e) => {
                                return Err(e);
                            },
                        };
                        let hlen = head.unicode_len();
                        match find_char(head, '/') {
                            None => {
                                if hlen == 0 {
                                    Err(FlakeError::BadReference)
                                } else {
                                    Ok(
                                        SimpleGitUrl {
                                            scheme: scheme.to_owned(),
                                            domain: domain.to_owned(),
                                            owner: owner.to_owned(),
                                            repo: head.to_owned(),
                                            rev_or_ref: None,
                                            params,
                                        },
                                    )
                                }
                            },
                            Some(i2) => {
                                proof {
                                    lemma_spec_find(head@, '/');
                                }
                                if i2 == 0 {
                                    return Err(FlakeError::BadReference);
                                }
                                let repo = head.substring_char(0, i2);
                                let rr = head.substring_char(i2 + 1, hlen);
                                if rr.unicode_len() == 0 {
                                    return Err(FlakeError::BadReference);
                                }
                                Ok(
                                    SimpleGitUrl {
                                        scheme: scheme.to_owned(),
                                        domain: domain.to_owned(),
                                        owner: owner.to_owned(),
                                        repo: repo.to_owned(),
                                        rev_or_ref: Some(rr.to_owned()),
                                        params,
                                    },
                                )
                            },
                        }
                    },
                }
            },
        }
    }
}

/// Extra literal facts used by the executable dispatcher.
proof fn lemma_domain_lits()
    ensures
        domain_of("github"@) == "github.com/"@,
        domain_of("gitlab"@) == "gitlab.com/"@,
        domain_of("sourcehut"@) == "git.sr.ht/~"@,
{
    reveal_strlit("github");
    reveal_strlit("gitlab");
    reveal_strlit("sourcehut");
    assert("github"@.len() == 6);
    assert("gitlab"@.len() == 6);
    assert("sourcehut"@.len() == 9);
    assert("github"@[3] == 'h');
    assert("gitlab"@[3] == 'l');
    assert("github"@ != "gitlab"@);
    assert("sourcehut"@ != "gitlab"@);
}

/// Dispatch over the first half of the scheme table.
#[verifier::rlimit(100)]
fn dispatch_a(scheme: &str, rest: &str) -> (r: Result<FlakeRef, FlakeError>)
    ensures
        match r {
            Ok(fr) => dispatch_a_view(scheme@, rest@) == Some(fr@) && known_scheme_a(scheme@),
            Err(e) => {
                &&& (e == FlakeError::UnknownScheme <==> !known_scheme_a(scheme@))
                &&& known_scheme_a(scheme@) ==> dispatch_a_view(scheme@, rest@) is None
            },
        },
{
    if str_eq(scheme, "flake") {
        proof {
            assert(dispatch_a_view(scheme@, rest@) == parse_indirect_view(rest@));
        }
        match FlakeIndirect::parse(rest) {
            Ok(x) => Ok(FlakeRef::Indirect(x)),
            Err(e) => Err(e),
        }
    } else     if str_eq(scheme, "path") {
        proof {
            assert(dispatch_a_view(scheme@, rest@) == parse_path_view(rest@));
        }
        match FlakePath::parse(rest) {
            Ok(x) => Ok(FlakeRef::Path(x)),
            Err(e) => Err(e),
        }
    } else     if str_eq(scheme, "git+http") {
        proof {
            assert(dispatch_a_view(scheme@, rest@) == parse_git_view("http"@, rest@));
        }
        match GitUrl::parse("http", rest) {
            Ok(x) => Ok(FlakeRef::Git(x)),
            Err(e) => Err(e),
        }
    } else     if str_eq(scheme, "git+https") {
        proof {
            assert(dispatch_a_view(scheme@, rest@) == parse_git_view("https"@, rest@));
        }
        match GitUrl::parse("https", rest) {
            Ok(x) => Ok(FlakeRef::Git(x)),
            Err(e) => Err(e),
        }
    } else     if str_eq(scheme, "git+ssh") {
        proof {
            assert(dispatch_a_view(scheme@, rest@) == parse_git_view("ssh"@, rest@));
        }
        match GitUrl::parse("ssh", rest) {
            Ok(x) => Ok(FlakeRef::Git(x)),
            Err(e) => Err(e),
        }
    } else     if str_eq(scheme, "git+file") {
        proof {
            assert(dispatch_a_view(scheme@, rest@) == parse_git_view("file"@, rest@));
        }
        match GitUrl::parse("file", rest) {
            Ok(x) => Ok(FlakeRef::Git(x)),
            Err(e) => Err(e),
        }
    } else     if str_eq(scheme, "mc+http") {
        proof {
            assert(dispatch_a_view(scheme@, rest@) == parse_mercurial_view("http"@, rest@));
        }
        match MercurialUrl::parse("http", rest) {
            Ok(x) => Ok(FlakeRef::Mercurial(x)),
            Err(e) => Err(e),
        }
    } else     if str_eq(scheme, "mc+https") {
        proof {
            assert(dispatch_a_view(scheme@, rest@) == parse_mercurial_view("https"@, rest@));
        }
        match MercurialUrl::parse("https", rest) {
            Ok(x) => Ok(FlakeRef::Mercurial(x)),
            Err(e) => Err(e),
        }
    } else {
        Err(FlakeError::UnknownScheme)
    }
}

/// Dispatch over the second half of the scheme table.
#[verifier::rlimit(100)]
fn dispatch_b(scheme: &str, rest: &str) -> (r: Result<FlakeRef, FlakeError>)
    ensures
        match r {
            Ok(fr) => dispatch_b_view(scheme@, rest@) == Some(fr@) && known_scheme_b(scheme@),
            Err(e) => {
                &&& (e == FlakeError::UnknownScheme <==> !known_scheme_b(scheme@))
                &&& known_scheme_b(scheme@) ==> dispatch_b_view(scheme@, rest@) is None
            },
        },
{
    if str_eq(scheme, "mc+ssh") {
        proof {
            assert(dispatch_b_view(scheme@, rest@) == parse_mercurial_view("ssh"@, rest@));
        }
        match MercurialUrl::parse("ssh", rest) {
            Ok(x) => Ok(FlakeRef::Mercurial(x)),
            Err(e) => Err(e),
        }
    } else     if str_eq(scheme, "mc+file") {
        proof {
            assert(dispatch_b_view(scheme@, rest@) == parse_mercurial_view("file"@, rest@));
        }
        match MercurialUrl::parse("file", rest) {
            Ok(x) => Ok(FlakeRef::Mercurial(x)),
            Err(e) => Err(e),
        }
    } else     if str_eq(scheme, "tarball+http") {
        proof {
            assert(dispatch_b_view(scheme@, rest@) == parse_tarball_view("http"@, rest@));
        }
        match TarballUrl::parse("http", rest) {
            Ok(x) => Ok(FlakeRef::Tarball(x)),
            Err(e) => Err(e),
        }
    } else     if str_eq(scheme, "tarball+https") {
        proof {
            assert(dispatch_b_view(scheme@, rest@) == parse_tarball_view("https"@, rest@));
        }
        match TarballUrl::parse("https", rest) {
            Ok(x) => Ok(FlakeRef::Tarball(x)),
            Err(e) => Err(e),
        }
    } else     if str_eq(scheme, "tarball+file") {
        proof {
            assert(dispatch_b_view(scheme@, rest@) == parse_tarball_view("file"@, rest@));
        }
        match TarballUrl::parse("file", rest) {
            Ok(x) => Ok(FlakeRef::Tarball(x)),
            Err(e) => Err(e),
        }
    } else     if str_eq(scheme, "github") {
        proof {
            lemma_domain_lits();
            assert(dispatch_b_view(scheme@, rest@) == parse_simple_view("github"@, rest@));
        }
        match SimpleGitUrl::parse("github", "github.com/", rest) {
            Ok(x) => Ok(FlakeRef::Simple(x)),
            Err(e) => Err(e),
        }
    } else     if str_eq(scheme, "gitlab") {
        proof {
            lemma_domain_lits();
            assert(dispatch_b_view(scheme@, rest@) == parse_simple_view("gitlab"@, rest@));
        }
        match SimpleGitUrl::parse("gitlab", "gitlab.com/", rest) {
            Ok(x) => Ok(FlakeRef::Simple(x)),
            Err(e) => Err(e),
        }
    } else     if str_eq(scheme, "sourcehut") {
        proof {
            lemma_domain_lits();
            assert(dispatch_b_view(scheme@, rest@) == parse_simple_view("sourcehut"@, rest@));
        }
        match SimpleGitUrl::parse("sourcehut", "git.sr.ht/~", rest) {
            Ok(x) => Ok(FlakeRef::Simple(x)),
            Err(e) => Err(e),
        }
    } else {
        Err(FlakeError::UnknownScheme)
    }
}

/// Dispatch an already-split scheme token to its variant parser.
fn dispatch(scheme: &str, rest: &str) -> (r: Result<FlakeRef, FlakeError>)
    ensures
        match r {
            Ok(fr) => dispatch_view(scheme@, rest@) == Some(fr@),
            Err(e) => {
                &&& dispatch_view(scheme@, rest@) is None
                &&& (e == FlakeError::UnknownScheme <==> !known_scheme(scheme@))
            },
        },
{
    match dispatch_a(scheme, rest) {
        Ok(x) => Ok(x),
        Err(FlakeError::BadReference) => Err(FlakeError::BadReference),
        Err(FlakeError::UnknownScheme) => {
            match dispatch_b(scheme, rest) {
                Ok(x) => Ok(x),
                Err(e) => Err(e),
            }
        },
    }
}

/// Parse a reference string: split at the first `:` and dispatch on
/// the scheme token. Returns `UnknownScheme` for a scheme outside the
/// dispatch table and `BadReference` for a malformed remainder.
pub fn parse(url: &str) -> (r: Result<FlakeRef, FlakeError>)
    ensures
        match r {
            Ok(fr) => parse_view(url@) == Some(fr@),
            Err(e) => {
                &&& parse_view(url@) is None
                &&& (e == FlakeError::UnknownScheme <==> spec_find(url@, ':') >= 0
                    && !known_scheme(url@.subrange(0, spec_find(url@, ':'))))
            },
        },
{
    let len = url.unicode_len();
    match find_char(url, ':') {
        None => Err(FlakeError::BadReference),
        Some(ci) => {
            proof {
                lemma_spec_find(url@, ':');
            }
            let scheme = url.substring_char(0, ci);
            let rest = url.substring_char(ci + 1, len);
            dispatch(scheme, rest)
        },
    }
}


// ------------------------------------------------------------------
// Printing and capabilities, executable
// ------------------------------------------------------------------

/// Append `?k1=v1&...` to `out`; empty parameters append nothing.
fn append_params(out: &mut String, params: &Vec<(String, String)>)
    ensures
        final(out)@ == old(out)@ + params_suffix(params_view(params@)),
{
    let n = params.len();
    if n == 0 {
        proof {
            assert(old(out)@ + params_suffix(params_view(params@)) =~= old(out)@);
        }
        return ;
    }
    out.append("?");
    let mut i: usize = 0;
    while i < n
        invariant
            n == params@.len(),
            n >= 1,
            0 <= i <= n,
            i == 0 ==> out@ == old(out)@ + "?"@,
            i >= 1 ==> out@ == old(out)@ + "?"@ + query_string(params_view(params@).take(i as int)),
        decreases n - i,
    {
        let ghost pv = params_view(params@);
        let ghost before = out@;
        if i > 0 {
            out.append("&");
        }
        out.append(params[i].0.as_str());
        out.append("=");
        out.append(params[i].1.as_str());
        proof {
            assert(pv.take(i + 1).drop_last() =~= pv.take(i as int));
            assert(pv.take(i + 1).last() == pv[i as int]);
            if i == 0 {
                assert(query_string(pv.take(1)) == pv[0].0 + "="@ + pv[0].1);
                assert(out@ =~= old(out)@ + "?"@ + (pv[0].0 + "="@ + pv[0].1));
            } else {
                assert(query_string(pv.take(i + 1)) == query_string(pv.take(i as int)) + "&"@
                    + pv[i as int].0 + "="@ + pv[i as int].1);
                assert(out@ =~= old(out)@ + "?"@ + query_string(pv.take(i + 1)));
            }
        }
        i = i + 1;
    }
    proof {
        assert(params_view(params@).take(n as int) =~= params_view(params@));
    }
}

/// An exact copy of a parameter list.
fn clone_params(ps: &Vec<(String, String)>) -> (r: Vec<(String, String)>)
    ensures
        r@ == ps@,
{
    let n = ps.len();
    let mut out: Vec<(String, String)> = Vec::new();
    let mut i: usize = 0;
    while i < n
        invariant
            n == ps@.len(),
            0 <= i <= n,
            out@ =~= ps@.take(i as int),
        decreases n - i,
    {
        out.push((ps[i].0.clone(), ps[i].1.clone()));
        proof {
            assert(out@ =~= ps@.take(i + 1));
        }
        i = i + 1;
    }
    proof {
        assert(out@ =~= ps@);
    }
    out
}

/// The discriminator a simple provider scheme maps to.
pub open spec fn simple_flake_type(scheme: Seq<char>) -> FlakeType {
    if scheme == "gitlab"@ {
        FlakeType::GitLab
    } else if scheme == "sourcehut"@ {
        FlakeType::SourceHut
    } else {
        FlakeType::GitHub
    }
}

pub open spec fn flake_type_view(v: FlakeRefView) -> FlakeType {
    match v {
        FlakeRefView::Indirect { .. } => FlakeType::Indirect,
        FlakeRefView::Path { .. } => FlakeType::Path,
        FlakeRefView::Git { .. } => FlakeType::Git,
        FlakeRefView::Mercurial { .. } => FlakeType::Mercurial,
        FlakeRefView::Tarball { .. } => FlakeType::Tarball,
        FlakeRefView::Simple { scheme, .. } => simple_flake_type(scheme),
    }
}

/// The remote URL the version-control tool can fetch, when one exists.
pub open spec fn git_remote_url_view(v: FlakeRefView) -> Option<Seq<char>> {
    match v {
        FlakeRefView::Git { scheme, server, path, .. } => Some(
            scheme + ":"@ + server_part(server) + path,
        ),
        FlakeRefView::Simple { domain, owner, repo, .. } => Some(
            "https://"@ + domain + owner + "/"@ + repo + ".git"@,
        ),
        _ => None,
    }
}

/// First value bound to a key in a parameter list.
pub open spec fn lookup_param(ps: Seq<(Seq<char>, Seq<char>)>, k: Seq<char>) -> Option<Seq<char>>
    decreases ps.len(),
{
    if ps.len() == 0 {
        None
    } else if ps[0].0 == k {
        Some(ps[0].1)
    } else {
        lookup_param(ps.skip(1), k)
    }
}

/// Best-effort lookup over the named components of a reference.
pub open spec fn arg_view(v: FlakeRefView, name: Seq<char>) -> Option<Seq<char>> {
    match v {
        FlakeRefView::Indirect { rev_or_ref, rev, .. } => {
            if name == "ref"@ {
                rev_or_ref
            } else if name == "rev"@ {
                rev
            } else {
                None
            }
        },
        FlakeRefView::Path { params, .. } => lookup_param(params, name),
        FlakeRefView::Git { params, .. } => lookup_param(params, name),
        FlakeRefView::Mercurial { params, .. } => lookup_param(params, name),
        FlakeRefView::Tarball { .. } => None,
        FlakeRefView::Simple { owner, repo, rev_or_ref, .. } => {
            if name == "owner"@ {
                Some(owner)
            } else if name == "repo"@ {
                Some(repo)
            } else if name == "rev_or_ref"@ {
                rev_or_ref
            } else {
                None
            }
        },
    }
}

fn param_get(params: &Vec<(String, String)>, name: &str) -> (r: Option<String>)
    ensures
        opt_view(r) == lookup_param(params_view(params@), name@),
{
    let ghost pv = params_view(params@);
    proof {
        assert(pv.skip(0) =~= pv);
    }
    let n = params.len();
    let mut i: usize = 0;
    while i < n
        invariant
            n == params@.len(),
            0 <= i <= n,
            pv == params_view(params@),
            lookup_param(pv, name@) == lookup_param(pv.skip(i as int), name@),
        decreases n - i,
    {
        proof {
            assert(pv.skip(i as int)[0] == pv[i as int]);
            assert(pv.skip(i as int).skip(1) =~= pv.skip(i + 1));
        }
        if str_eq(params[i].0.as_str(), name) {
            return Some(params[i].1.clone());
        }
        i = i + 1;
    }
    proof {
        assert(pv.skip(n as int).len() == 0);
    }
    None
}

/// Replace the first binding of a key, or append a fresh one.
pub open spec fn set_param(
    ps: Seq<(Seq<char>, Seq<char>)>,
    k: Seq<char>,
    v: Seq<char>,
) -> Seq<(Seq<char>, Seq<char>)>
    decreases ps.len(),
{
    if ps.len() == 0 {
        seq![(k, v)]
    } else if ps[0].0 == k {
        seq![(k, v)] + ps.skip(1)
    } else {
        seq![ps[0]] + set_param(ps.skip(1), k, v)
    }
}

proof fn lemma_set_param_found(ps: Seq<(Seq<char>, Seq<char>)>, i: int, k: Seq<char>, v: Seq<char>)
    requires
        0 <= i < ps.len(),
        forall|j: int| 0 <= j < i ==> #[trigger] ps[j].0 != k,
        ps[i].0 == k,
    ensures
        set_param(ps, k, v) =~= ps.update(i, (k, v)),
    decreases i,
{
    if i == 0 {
        assert(seq![(k, v)] + ps.skip(1) =~= ps.update(0, (k, v)));
    } else {
        lemma_set_param_found(ps.skip(1), i - 1, k, v);
        assert(seq![ps[0]] + ps.skip(1).update(i - 1, (k, v)) =~= ps.update(i, (k, v)));
    }
}

proof fn lemma_set_param_absent(ps: Seq<(Seq<char>, Seq<char>)>, k: Seq<char>, v: Seq<char>)
    requires
        forall|j: int| 0 <= j < ps.len() ==> #[trigger] ps[j].0 != k,
    ensures
        set_param(ps, k, v) =~= ps + seq![(k, v)],
    decreases ps.len(),
{
    if ps.len() == 0 {
        assert(set_param(ps, k, v) =~= ps + seq![(k, v)]);
    } else {
        lemma_set_param_absent(ps.skip(1), k, v);
        assert(seq![ps[0]] + (ps.skip(1) + seq![(k, v)]) =~= ps + seq![(k, v)]);
    }
}

fn set_param_ex(params: &mut Vec<(String, String)>, k: &str, v: &str)
    ensures
        params_view(final(params)@) == set_param(params_view(old(params)@), k@, v@),
{
    let ghost pv = params_view(params@);
    let n = params.len();
    let mut i: usize = 0;
    while i < n
        invariant
            n == params@.len(),
            0 <= i <= n,
            pv == params_view(params@),
            pv == params_view(old(params)@),
            forall|j: int| 0 <= j < i ==> #[trigger] pv[j].0 != k@,
        decreases n - i,
    {
        if str_eq(params[i].0.as_str(), k) {
            params.set(i, (k.to_owned(), v.to_owned()));
            proof {
                lemma_set_param_found(pv, i as int, k@, v@);
                assert(params_view(params@) =~= pv.update(i as int, (k@, v@)));
            }
            return ;
        }
        i = i + 1;
    }
    params.push((k.to_owned(), v.to_owned()));
    proof {
        lemma_set_param_absent(pv, k@, v@);
        assert(params_view(params@) =~= pv + seq![(k@, v@)]);
    }
}

/// The reference with its pinned revision substituted.
pub open spec fn with_rev_view(v: FlakeRefView, rev: Seq<char>) -> FlakeRefView {
    match v {
        FlakeRefView::Indirect { flake_id, rev_or_ref, rev: r } => {
            if rev_or_ref is Some {
                FlakeRefView::Indirect { flake_id, rev_or_ref, rev: Some(rev) }
            } else {
                FlakeRefView::Indirect { flake_id, rev_or_ref: Some(rev), rev: None }
            }
        },
        FlakeRefView::Path { path, params } => FlakeRefView::Path {
            path,
            params: set_param(params, "rev"@, rev),
        },
        FlakeRefView::Git { scheme, server, path, params } => FlakeRefView::Git {
            scheme,
            server,
            path,
            params: set_param(params, "rev"@, rev),
        },
        FlakeRefView::Mercurial { scheme, server, path, params } => FlakeRefView::Mercurial {
            scheme,
            server,
            path,
            params: set_param(params, "rev"@, rev),
        },
        FlakeRefView::Tarball { scheme, url } => FlakeRefView::Tarball { scheme, url },
        FlakeRefView::Simple { scheme, domain, owner, repo, rev_or_ref, params } => {
            FlakeRefView::Simple { scheme, domain, owner, repo, rev_or_ref: Some(rev), params }
        },
    }
}

impl FlakeRef {
    /// The reversible canonical string form.
    pub fn flake_url(&self) -> (r: String)
        ensures
            r@ == print_view(self@),
    {
        let mut out = String::new();
        match self {
            FlakeRef::Indirect(x) => {
                out.append("flake:");
                out.append(x.flake_id.as_str());
                if let Some(rr) = &x.rev_or_ref {
                    out.append("/");
                    out.append(rr.as_str());
                }
                if let Some(rv) = &x.rev {
                    out.append("/");
                    out.append(rv.as_str());
                }
                proof {
                    assert(out@ =~= print_view(self@));
                }
            },
            FlakeRef::Path(x) => {
                out.append("path:");
                out.append(x.path.as_str());
                append_params(&mut out, &x.params);
                proof {
                    assert(out@ =~= print_view(self@));
                }
            },
            FlakeRef::Git(x) => {
                out.append("git+");
                out.append(x.scheme.as_str());
                out.append(":");
                if let Some(srv) = &x.server {
                    out.append("//");
                    out.append(srv.as_str());
                }
                out.append(x.path.as_str());
                append_params(&mut out, &x.params);
                proof {
                    assert(out@ =~= print_view(self@));
                }
            },
            FlakeRef::Mercurial(x) => {
                out.append("mc+");
                out.append(x.scheme.as_str());
                out.append(":");
                if let Some(srv) = &x.server {
                    out.append("//");
                    out.append(srv.as_str());
                }
                out.append(x.path.as_str());
                append_params(&mut out, &x.params);
                proof {
                    assert(out@ =~= print_view(self@));
                }
            },
            FlakeRef::Tarball(x) => {
                out.append("tarball+");
                out.append(x.scheme.as_str());
                out.append("://");
                out.append(x.url.as_str());
                proof {
                    assert(out@ =~= print_view(self@));
                }
            },
            FlakeRef::Simple(x) => {
                out.append(x.scheme.as_str());
                out.append(":");
                out.append(x.owner.as_str());
                out.append("/");
                out.append(x.repo.as_str());
                if let Some(rr) = &x.rev_or_ref {
                    out.append("/");
                    out.append(rr.as_str());
                }
                append_params(&mut out, &x.params);
                proof {
                    assert(out@ =~= print_view(self@));
                }
            },
        }
        out
    }

    /// The variant discriminator.
    pub fn flake_type(&self) -> (r: FlakeType)
        ensures
            r == flake_type_view(self@),
    {
        match self {
            FlakeRef::Indirect(_) => FlakeType::Indirect,
            FlakeRef::Path(_) => FlakeType::Path,
            FlakeRef::Git(_) => FlakeType::Git,
            FlakeRef::Mercurial(_) => FlakeType::Mercurial,
            FlakeRef::Tarball(_) => FlakeType::Tarball,
            FlakeRef::Simple(x) => {
                if str_eq(x.scheme.as_str(), "gitlab") {
                    FlakeType::GitLab
                } else if str_eq(x.scheme.as_str(), "sourcehut") {
                    FlakeType::SourceHut
                } else {
                    FlakeType::GitHub
                }
            },
        }
    }

    /// The remote URL usable by the version-control tool, if any.
    pub fn git_remote_url(&self) -> (r: Option<String>)
        ensures
            opt_view(r) == git_remote_url_view(self@),
    {
        match self {
            FlakeRef::Git(x) => {
                let mut out = String::new();
                out.append(x.scheme.as_str());
                out.append(":");
                if let Some(srv) = &x.server {
                    out.append("//");
                    out.append(srv.as_str());
                }
                out.append(x.path.as_str());
                proof {
                    assert(out@ =~= git_remote_url_view(self@)->Some_0);
                }
                Some(out)
            },
            FlakeRef::Simple(x) => {
                let mut out = String::new();
                out.append("https://");
                out.append(x.domain.as_str());
                out.append(x.owner.as_str());
                out.append("/");
                out.append(x.repo.as_str());
                out.append(".git");
                proof {
                    assert(out@ =~= git_remote_url_view(self@)->Some_0);
                }
                Some(out)
            },
            _ => None,
        }
    }

    /// Case-sensitive lookup over named components.
    pub fn arg(&self, name: &str) -> (r: Option<String>)
        ensures
            opt_view(r) == arg_view(self@, name@),
    {
        match self {
            FlakeRef::Indirect(x) => {
                if str_eq(name, "ref") {
                    clone_opt_string(&x.rev_or_ref)
                } else if str_eq(name, "rev") {
                    clone_opt_string(&x.rev)
                } else {
                    None
                }
            },
            FlakeRef::Path(x) => param_get(&x.params, name),
            FlakeRef::Git(x) => param_get(&x.params, name),
            FlakeRef::Mercurial(x) => param_get(&x.params, name),
            FlakeRef::Tarball(_) => None,
            FlakeRef::Simple(x) => {
                if str_eq(name, "owner") {
                    Some(x.owner.clone())
                } else if str_eq(name, "repo") {
                    Some(x.repo.clone())
                } else if str_eq(name, "rev_or_ref") {
                    clone_opt_string(&x.rev_or_ref)
                } else {
                    None
                }
            },
        }
    }

    /// A name for the flake, inferred from its repository component.
    pub fn infer_name(&self) -> (r: Option<String>)
        ensures
            opt_view(r) == arg_view(self@, "repo"@),
    {
        self.arg("repo")
    }

    /// Projection to the canonical flat record used in lockfiles.
    pub fn input_spec(&self) -> (r: InputSpec)
        ensures
            r@.flake_type == flake_type_view(self@),
            r@.nar_hash is None,
            r@.url == Some(print_view(self@)),
            r@.owner == arg_view(self@, "owner"@),
            r@.repo == arg_view(self@, "repo"@),
            r@.dir == arg_view(self@, "dir"@),
            r@.rev == arg_view(self@, "rev"@),
            r@.git_ref == arg_view(self@, "ref"@),
            r@.rev_count is None,
            r@.last_modified is None,
    {
        InputSpec {
            flake_type: self.flake_type(),
            nar_hash: None,
            url: Some(self.flake_url()),
            owner: self.arg("owner"),
            repo: self.arg("repo"),
            dir: self.arg("dir"),
            rev: self.arg("rev"),
            git_ref: self.arg("ref"),
            rev_count: None,
            last_modified: None,
        }
    }

    /// An exact copy, stated over the views.
    pub fn duplicate(&self) -> (r: FlakeRef)
        ensures
            r@ == self@,
    {
        match self {
            FlakeRef::Indirect(x) => FlakeRef::Indirect(
                FlakeIndirect {
                    flake_id: x.flake_id.clone(),
                    rev_or_ref: clone_opt_string(&x.rev_or_ref),
                    rev: clone_opt_string(&x.rev),
                },
            ),
            FlakeRef::Path(x) => FlakeRef::Path(
                FlakePath { path: x.path.clone(), params: clone_params(&x.params) },
            ),
            FlakeRef::Git(x) => FlakeRef::Git(
                GitUrl {
                    scheme: x.scheme.clone(),
                    server: clone_opt_string(&x.server),
                    path: x.path.clone(),
                    params: clone_params(&x.params),
                },
            ),
            FlakeRef::Mercurial(x) => FlakeRef::Mercurial(
                MercurialUrl {
                    scheme: x.scheme.clone(),
                    server: clone_opt_string(&x.server),
                    path: x.path.clone(),
                    params: clone_params(&x.params),
                },
            ),
            FlakeRef::Tarball(x) => FlakeRef::Tarball(
                TarballUrl { scheme: x.scheme.clone(), url: x.url.clone() },
            ),
            FlakeRef::Simple(x) => FlakeRef::Simple(
                SimpleGitUrl {
                    scheme: x.scheme.clone(),
                    domain: x.domain.clone(),
                    owner: x.owner.clone(),
                    repo: x.repo.clone(),
                    rev_or_ref: clone_opt_string(&x.rev_or_ref),
                    params: clone_params(&x.params),
                },
            ),
        }
    }

    /// The same reference pinned to `rev`.
    pub fn with_rev(&self, rev: &str) -> (r: FlakeRef)
        ensures
            r@ == with_rev_view(self@, rev@),
    {
        match self {
            FlakeRef::Indirect(x) => {
                if x.rev_or_ref.is_some() {
                    FlakeRef::Indirect(
                        FlakeIndirect {
                            flake_id: x.flake_id.clone(),
                            rev_or_ref: clone_opt_string(&x.rev_or_ref),
                            rev: Some(rev.to_owned()),
                        },
                    )
                } else {
                    FlakeRef::Indirect(
                        FlakeIndirect {
                            flake_id: x.flake_id.clone(),
                            rev_or_ref: Some(rev.to_owned()),
                            rev: None,
                        },
                    )
                }
            },
            FlakeRef::Path(x) => {
                let mut params = clone_params(&x.params);
                set_param_ex(&mut params, "rev", rev);
                FlakeRef::Path(FlakePath { path: x.path.clone(), params })
            },
            FlakeRef::Git(x) => {
                let mut params = clone_params(&x.params);
                set_param_ex(&mut params, "rev", rev);
                FlakeRef::Git(
                    GitUrl {
                        scheme: x.scheme.clone(),
                        server: clone_opt_string(&x.server),
                        path: x.path.clone(),
                        params,
                    },
                )
            },
            FlakeRef::Mercurial(x) => {
                let mut params = clone_params(&x.params);
                set_param_ex(&mut params, "rev", rev);
                FlakeRef::Mercurial(
                    MercurialUrl {
                        scheme: x.scheme.clone(),
                        server: clone_opt_string(&x.server),
                        path: x.path.clone(),
                        params,
                    },
                )
            },
            FlakeRef::Tarball(x) => FlakeRef::Tarball(
                TarballUrl { scheme: x.scheme.clone(), url: x.url.clone() },
            ),
            FlakeRef::Simple(x) => FlakeRef::Simple(
                SimpleGitUrl {
                    scheme: x.scheme.clone(),
                    domain: x.domain.clone(),
                    owner: x.owner.clone(),
                    repo: x.repo.clone(),
                    rev_or_ref: Some(rev.to_owned()),
                    params: clone_params(&x.params),
                },
            ),
        }
    }
}

// ------------------------------------------------------------------
// Boundary law: empty parameters leave no `?` in the printed URL
// ------------------------------------------------------------------

/// The parameter list of a reference, empty for variants without one.
pub open spec fn params_of(v: FlakeRefView) -> Seq<(Seq<char>, Seq<char>)> {
    match v {
        FlakeRefView::Path { params, .. } => params,
        FlakeRefView::Git { params, .. } => params,
        FlakeRefView::Mercurial { params, .. } => params,
        FlakeRefView::Simple { params, .. } => params,
        _ => Seq::empty(),
    }
}

proof fn lemma_contains_concat(a: Seq<char>, b: Seq<char>, c: char)
    ensures
        contains_char(a + b, c) <==> contains_char(a, c) || contains_char(b, c),
{
    if contains_char(a, c) {
        let j = choose|j: int| 0 <= j < a.len() && a[j] == c;
        assert((a + b)[j] == c);
    }
    if contains_char(b, c) {
        let j = choose|j: int| 0 <= j < b.len() && b[j] == c;
        assert((a + b)[a.len() + j] == c);
    }
    if contains_char(a + b, c) {
        let j = choose|j: int| 0 <= j < (a + b).len() && (a + b)[j] == c;
        if j < a.len() {
            assert(a[j] == c);
        } else {
            assert(b[j - a.len()] == c);
        }
    }
}

proof fn lemma_scheme_lits_no_query()
    ensures
        !contains_char("flake:"@, '?'),
        !contains_char("path:"@, '?'),
        !contains_char("git+"@, '?'),
        !contains_char("mc+"@, '?'),
        !contains_char(":"@, '?'),
        !contains_char("/"@, '?'),
        !contains_char("//"@, '?'),
        !contains_char("http"@, '?'),
        !contains_char("https"@, '?'),
        !contains_char("ssh"@, '?'),
        !contains_char("file"@, '?'),
{
    reveal_strlit("flake:");
    reveal_strlit("path:");
    reveal_strlit("git+");
    reveal_strlit("mc+");
    reveal_strlit(":");
    reveal_strlit("/");
    reveal_strlit("//");
    reveal_strlit("http");
    reveal_strlit("https");
    reveal_strlit("ssh");
    reveal_strlit("file");
}

/// A reference of a parameter-carrying variant with an empty parameter
/// list prints without a `?`.
pub proof fn lemma_empty_params_no_query(v: FlakeRefView)
    requires
        wf_view(v),
        params_of(v).len() == 0,
        v is Path || v is Git || v is Mercurial || v is Simple,
    ensures
        !contains_char(print_view(v), '?'),
{
    lemma_scheme_lits_no_query();
    match v {
        FlakeRefView::Path { path, params } => {
            assert(print_view(v) == "path:"@ + path + params_suffix(params));
            lemma_contains_concat("path:"@, path, '?');
            lemma_contains_concat("path:"@ + path, params_suffix(params), '?');
        },
        FlakeRefView::Git { scheme, server, path, params } => {
            assert(!contains_char(scheme, '?'));
            lemma_contains_concat("git+"@, scheme, '?');
            lemma_contains_concat("git+"@ + scheme, ":"@, '?');
            match server {
                Some(srv) => {
                    lemma_contains_concat("//"@, srv, '?');
                },
                None => {},
            }
            assert(!contains_char(server_part(server), '?'));
            lemma_contains_concat("git+"@ + scheme + ":"@, server_part(server), '?');
            lemma_contains_concat("git+"@ + scheme + ":"@ + server_part(server), path, '?');
            lemma_contains_concat(
                "git+"@ + scheme + ":"@ + server_part(server) + path,
                params_suffix(params),
                '?',
            );
        },
        FlakeRefView::Mercurial { scheme, server, path, params } => {
            assert(!contains_char(scheme, '?'));
            lemma_contains_concat("mc+"@, scheme, '?');
            lemma_contains_concat("mc+"@ + scheme, ":"@, '?');
            match server {
                Some(srv) => {
                    lemma_contains_concat("//"@, srv, '?');
                },
                None => {},
            }
            assert(!contains_char(server_part(server), '?'));
            lemma_contains_concat("mc+"@ + scheme + ":"@, server_part(server), '?');
            lemma_contains_concat("mc+"@ + scheme + ":"@ + server_part(server), path, '?');
            lemma_contains_concat(
                "mc+"@ + scheme + ":"@ + server_part(server) + path,
                params_suffix(params),
                '?',
            );
        },
        FlakeRefView::Simple { scheme, domain, owner, repo, rev_or_ref, params } => {
            assert(!contains_char(scheme, '?')) by {
                reveal_strlit("github");
                reveal_strlit("gitlab");
                reveal_strlit("sourcehut");
            }
            lemma_contains_concat(scheme, ":"@, '?');
            lemma_contains_concat(scheme + ":"@, owner, '?');
            lemma_contains_concat(scheme + ":"@ + owner, "/"@, '?');
            lemma_contains_concat(scheme + ":"@ + owner + "/"@, repo, '?');
            match rev_or_ref {
                Some(rr) => {
                    lemma_contains_concat("/"@, rr, '?');
                },
                None => {},
            }
            assert(!contains_char(opt_seg(rev_or_ref), '?'));
            lemma_contains_concat(scheme + ":"@ + owner + "/"@ + repo, opt_seg(rev_or_ref), '?');
            lemma_contains_concat(
                scheme + ":"@ + owner + "/"@ + repo + opt_seg(rev_or_ref),
                params_suffix(params),
                '?',
            );
        },
        _ => {},
    }
}

impl InputSpec {
    /// The canonical flat record of a parsed reference.
    pub fn from_flake_ref(flake_ref: &FlakeRef) -> (r: InputSpec)
        ensures
            r@.flake_type == flake_type_view(flake_ref@),
            r@.url == Some(print_view(flake_ref@)),
            r@.owner == arg_view(flake_ref@, "owner"@),
            r@.repo == arg_view(flake_ref@, "repo"@),
            r@.dir == arg_view(flake_ref@, "dir"@),
            r@.rev == arg_view(flake_ref@, "rev"@),
            r@.git_ref == arg_view(flake_ref@, "ref"@),
            r@.nar_hash is None,
            r@.rev_count is None,
            r@.last_modified is None,
    {
        flake_ref.input_spec()
    }
}

} // verus!
