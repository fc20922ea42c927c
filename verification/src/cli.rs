//! Data carried between the library and the two external tools (the
//! version-control tool and the builder), and the verified parsing of
//! the listing the version-control tool prints.
//!
//! Invoking the tools is not done here: callers run them and hand the
//! captured output in as plain values.
use vstd::prelude::*;

use crate::lockfile::{InputSpec, InputSpecView, LockFile, LockFileView, opt_view};
use crate::strs::{spec_find, lemma_spec_find, find_char};

verus! {

/// Captured output of a successful tool invocation.
#[derive(Debug)]
pub struct CliOutput {
    pub stdout: String,
    pub stderr: String,
}

/// One `(revision, ref)` line of a remote listing, in the order the
/// version-control tool printed them (ascending `v:refname`).
#[derive(Debug)]
pub struct GitRef {
    pub rev: String,
    pub git_ref: String,
}

/// The hash and store path reported for a prefetched source tree.
#[derive(Debug)]
pub struct FlakePrefetch {
    pub hash: String,
    pub store_path: String,
}

/// Canonical metadata the builder reports for a reference.
#[derive(Debug)]
pub struct FlakeMetadata {
    pub description: Option<String>,
    pub last_modified: i64,
    pub locked: InputSpec,
    pub locks: LockFile,
    pub original: InputSpec,
    pub original_url: String,
    pub path: String,
    pub resolved: InputSpec,
    pub resolved_url: String,
    pub revision: String,
    pub url: String,
}

pub ghost struct FlakeMetadataView {
    pub description: Option<Seq<char>>,
    pub last_modified: i64,
    pub locked: InputSpecView,
    pub locks: LockFileView,
    pub original: InputSpecView,
    pub original_url: Seq<char>,
    pub path: Seq<char>,
    pub resolved: InputSpecView,
    pub resolved_url: Seq<char>,
    pub revision: Seq<char>,
    pub url: Seq<char>,
}

impl View for FlakeMetadata {
    type V = FlakeMetadataView;

    open spec fn view(&self) -> FlakeMetadataView {
        FlakeMetadataView {
            description: opt_view(self.description),
            last_modified: self.last_modified,
            locked: self.locked@,
            locks: self.locks@,
            original: self.original@,
            original_url: self.original_url@,
            path: self.path@,
            resolved: self.resolved@,
            resolved_url: self.resolved_url@,
            revision: self.revision@,
            url: self.url@,
        }
    }
}

/// The listing cannot be read as `(rev, ref)` lines.
#[derive(Clone, Copy, Debug, PartialEq, Eq, Structural)]
pub enum ListingError {
    BadListing,
}

/// Whitespace as the tool's line tokens are separated by it.
pub open spec fn is_ws(c: char) -> bool {
    c == ' ' || c == '\t' || c == '\r' || c == '\n'
}

/// Index of the first whitespace character at or after `from`, or the
/// length of the sequence when there is none.
pub open spec fn spec_find_ws(s: Seq<char>, from: int) -> int
    decreases s.len() - from,
{
    if from < 0 || from >= s.len() {
        s.len() as int
    } else if is_ws(s[from]) {
        from
    } else {
        spec_find_ws(s, from + 1)
    }
}

/// Index of the first non-whitespace character at or after `from`, or
/// the length of the sequence when there is none.
pub open spec fn spec_find_non_ws(s: Seq<char>, from: int) -> int
    decreases s.len() - from,
{
    if from < 0 || from >= s.len() {
        s.len() as int
    } else if !is_ws(s[from]) {
        from
    } else {
        spec_find_non_ws(s, from + 1)
    }
}

/// The first two whitespace-separated tokens of a line.
pub open spec fn parse_listing_line(line: Seq<char>) -> Option<(Seq<char>, Seq<char>)> {
    let a0 = spec_find_non_ws(line, 0);
    let a1 = spec_find_ws(line, a0);
    let b0 = spec_find_non_ws(line, a1);
    let b1 = spec_find_ws(line, b0);
    if a0 >= line.len() || b0 >= line.len() {
        None
    } else {
        Some((line.subrange(a0, a1), line.subrange(b0, b1)))
    }
}

/// All `\n`-separated lines of the captured output, parsed in order.
pub open spec fn parse_listing_view(s: Seq<char>) -> Option<Seq<(Seq<char>, Seq<char>)>>
    decreases s.len(),
{
    let i = spec_find(s, '\n');
    if i < 0 {
        match parse_listing_line(s) {
            Some(p) => Some(seq![p]),
            None => None,
        }
    } else if 0 <= i < s.len() {
        match parse_listing_line(s.subrange(0, i)) {
            Some(p) => match parse_listing_view(s.subrange(i + 1, s.len() as int)) {
                Some(ps) => Some(seq![p] + ps),
                None => None,
            },
            None => None,
        }
    } else {
        // unreachable: the index of a found character lies in range
        None
    }
}

fn find_ws(s: &str, from: usize) -> (r: usize)
    requires
        from <= s@.len(),
    ensures
        r == spec_find_ws(s@, from as int),
        from <= r <= s@.len(),
    decreases s@.len() - from,
{
    let len = s.unicode_len();
    if from >= len {
        len
    } else {
        let c = s.get_char(from);
        if c == ' ' || c == '\t' || c == '\r' || c == '\n' {
            from
        } else {
            find_ws(s, from + 1)
        }
    }
}

fn find_non_ws(s: &str, from: usize) -> (r: usize)
    requires
        from <= s@.len(),
    ensures
        r == spec_find_non_ws(s@, from as int),
        from <= r <= s@.len(),
    decreases s@.len() - from,
{
    let len = s.unicode_len();
    if from >= len {
        len
    } else {
        let c = s.get_char(from);
        if !(c == ' ' || c == '\t' || c == '\r' || c == '\n') {
            from
        } else {
            find_non_ws(s, from + 1)
        }
    }
}

fn parse_line_ex(line: &str) -> (r: Result<GitRef, ListingError>)
    ensures
        match r {
            Ok(g) => parse_listing_line(line@) == Some((g.rev@, g.git_ref@)),
            Err(e) => parse_listing_line(line@) is None && e == ListingError::BadListing,
        },
{
    let len = line.unicode_len();
    let a0 = find_non_ws(line, 0);
    let a1 = find_ws(line, a0);
    let b0 = find_non_ws(line, a1);
    let b1 = find_ws(line, b0);
    if a0 >= len || b0 >= len {
        Err(ListingError::BadListing)
    } else {
        Ok(
            GitRef {
                rev: line.substring_char(a0, a1).to_owned(),
                git_ref: line.substring_char(b0, b1).to_owned(),
            },
        )
    }
}

/// View of a listing as `(rev, ref)` pairs of character sequences.
pub open spec fn listing_view(v: Seq<GitRef>) -> Seq<(Seq<char>, Seq<char>)> {
    Seq::new(v.len(), |i: int| (v[i].rev@, v[i].git_ref@))
}

/// Parse the trimmed output of the remote listing: one line per
/// reference, a revision and a ref name separated by whitespace.
pub fn parse_ls_remote(raw: &str) -> (r: Result<Vec<GitRef>, ListingError>)
    ensures
        match r {
            Ok(v) => parse_listing_view(raw@) == Some(listing_view(v@)),
            Err(e) => parse_listing_view(raw@) is None && e == ListingError::BadListing,
        },
    decreases raw@.len(),
{
    let len = raw.unicode_len();
    match find_char(raw, '\n') {
        None => {
            match parse_line_ex(raw) {
                Ok(g) => {
                    let mut out: Vec<GitRef> = Vec::new();
                    let ghost gv = (g.rev@, g.git_ref@);
                    out.push(g);
                    proof {
                        assert(listing_view(out@) =~= seq![gv]);
                    }
                    Ok(out)
                },
                Err(e) => Err(e),
            }
        },
        Some(i) => {
            proof {
                lemma_spec_find(raw@, '\n');
            }
            let line = raw.substring_char(0, i);
            let rest = raw.substring_char(i + 1, len);
            match parse_line_ex(line) {
                Ok(g) => {
                    match parse_ls_remote(rest) {
                        Ok(mut out) => {
                            let ghost gv = (g.rev@, g.git_ref@);
                            let ghost tail = listing_view(out@);
                            out.insert(0, g);
                            proof {
                                assert(listing_view(out@) =~= seq![gv] + tail);
                            }
                            Ok(out)
                        },
                        Err(e) => Err(e),
                    }
                },
                Err(e) => Err(e),
            }
        },
    }
}

} // verus!
