//! The lockfile document schema: a JSON tree, the encoding of a
//! lockfile into it, and the decoding back. Reading back what was
//! written returns the same document: `lemma_lockfile_round_trip`.
//!
//! Rendering the tree to text and parsing text back is the caller's
//! concern; the schema (field names, omitted absent fields, the
//! untagged edge representation) lives here.
use vstd::prelude::*;

use crate::lockfile::{
    FlakeType, InputRef, InputRefView, InputSpec, InputSpecView, LockFile, LockFileView,
    LockedRef, LockedRefView, deep_map, opt_view,
};
use crate::strmap::StrMap;
use crate::strs::str_eq;

verus! {

/// A JSON value tree.
#[derive(Debug)]
pub enum Json {
    Null,
    Bool(bool),
    Int(i64),
    Str(String),
    Arr(Vec<Json>),
    Obj(Vec<(String, Json)>),
}

pub ghost enum JsonView {
    Null,
    Bool(bool),
    Int(i64),
    Str(Seq<char>),
    Arr(Seq<JsonView>),
    Obj(Seq<(Seq<char>, JsonView)>),
}

pub open spec fn json_view(j: Json) -> JsonView
    decreases j, 0int,
{
    match j {
        Json::Null => JsonView::Null,
        Json::Bool(b) => JsonView::Bool(b),
        Json::Int(n) => JsonView::Int(n),
        Json::Str(s) => JsonView::Str(s@),
        Json::Arr(items) => JsonView::Arr(json_view_items(items, 0)),
        Json::Obj(entries) => JsonView::Obj(json_view_entries(entries, 0)),
    }
}

pub open spec fn json_view_items(items: Vec<Json>, i: int) -> Seq<JsonView>
    decreases items, items@.len() - i + 1,
{
    if i < 0 || i >= items@.len() {
        Seq::empty()
    } else {
        seq![json_view(items@[i])] + json_view_items(items, i + 1)
    }
}

pub open spec fn json_view_entries(entries: Vec<(String, Json)>, i: int) -> Seq<
    (Seq<char>, JsonView),
>
    decreases entries, entries@.len() - i + 1,
{
    if i < 0 || i >= entries@.len() {
        Seq::empty()
    } else {
        seq![(entries@[i].0@, json_view(entries@[i].1))] + json_view_entries(entries, i + 1)
    }
}

impl View for Json {
    type V = JsonView;

    open spec fn view(&self) -> JsonView {
        json_view(*self)
    }
}

/// The value bound to the first occurrence of a key in an object.
pub open spec fn obj_get(es: Seq<(Seq<char>, JsonView)>, k: Seq<char>) -> Option<JsonView>
    decreases es.len(),
{
    if es.len() == 0 {
        None
    } else if es[0].0 == k {
        Some(es[0].1)
    } else {
        obj_get(es.skip(1), k)
    }
}

proof fn lemma_obj_get_absent(es: Seq<(Seq<char>, JsonView)>, k: Seq<char>)
    requires
        forall|i: int| 0 <= i < es.len() ==> #[trigger] es[i].0 != k,
    ensures
        obj_get(es, k) is None,
    decreases es.len(),
{
    if es.len() > 0 {
        lemma_obj_get_absent(es.skip(1), k);
    }
}

proof fn lemma_obj_get_concat(a: Seq<(Seq<char>, JsonView)>, b: Seq<(Seq<char>, JsonView)>, k: Seq<char>)
    ensures
        obj_get(a + b, k) == (match obj_get(a, k) {
            Some(v) => Some(v),
            None => obj_get(b, k),
        }),
    decreases a.len(),
{
    if a.len() == 0 {
        assert(a + b =~= b);
    } else {
        assert((a + b).skip(1) =~= a.skip(1) + b);
        lemma_obj_get_concat(a.skip(1), b, k);
    }
}

// ------------------------------------------------------------------
// Encoding
// ------------------------------------------------------------------

/// The serialized tag of a reference variant.
pub open spec fn type_tag(ft: FlakeType) -> Seq<char> {
    match ft {
        FlakeType::Path => "path"@,
        FlakeType::Git => "git"@,
        FlakeType::Mercurial => "mercurial"@,
        FlakeType::Tarball => "tarball"@,
        FlakeType::File => "file"@,
        FlakeType::GitHub => "github"@,
        FlakeType::GitLab => "gitlab"@,
        FlakeType::SourceHut => "sourcehut"@,
        FlakeType::Indirect => "flake"@,
    }
}

/// An optional string field: one entry when present, none otherwise.
pub open spec fn opt_str_field(k: Seq<char>, o: Option<Seq<char>>) -> Seq<(Seq<char>, JsonView)> {
    match o {
        Some(v) => seq![(k, JsonView::Str(v))],
        None => Seq::empty(),
    }
}

/// An optional integer field.
pub open spec fn opt_int_field(k: Seq<char>, o: Option<i64>) -> Seq<(Seq<char>, JsonView)> {
    match o {
        Some(v) => seq![(k, JsonView::Int(v))],
        None => Seq::empty(),
    }
}

/// The flat pinned-input record, with its serialized field names;
/// absent fields are omitted.
pub open spec fn enc_input_spec(s: InputSpecView) -> Seq<(Seq<char>, JsonView)> {
    seq![("type"@, JsonView::Str(type_tag(s.flake_type)))] + opt_str_field("narHash"@, s.nar_hash)
        + opt_str_field("url"@, s.url) + opt_str_field("owner"@, s.owner) + opt_str_field(
        "repo"@,
        s.repo,
    ) + opt_str_field("dir"@, s.dir) + opt_str_field("rev"@, s.rev) + opt_str_field(
        "ref"@,
        s.git_ref,
    ) + opt_int_field("revCount"@, s.rev_count) + opt_int_field("lastModified"@, s.last_modified)
}

/// An edge: a plain node name, or an array of labels.
pub open spec fn enc_input_ref(r: InputRefView) -> JsonView {
    match r {
        InputRefView::Direct(n) => JsonView::Str(n),
        InputRefView::Path(p) => JsonView::Arr(Seq::new(p.len(), |i: int| JsonView::Str(p[i]))),
    }
}

/// A node; the input map serializes in its key order.
pub open spec fn enc_node(n: LockedRef) -> JsonView {
    JsonView::Obj(
        (match n.flake {
            Some(b) => seq![("flake"@, JsonView::Bool(b))],
            None => Seq::<(Seq<char>, JsonView)>::empty(),
        }) + (match n.locked {
            Some(s) => seq![("locked"@, JsonView::Obj(enc_input_spec(s@)))],
            None => Seq::<(Seq<char>, JsonView)>::empty(),
        }) + (match n.original {
            Some(s) => seq![("original"@, JsonView::Obj(enc_input_spec(s@)))],
            None => Seq::<(Seq<char>, JsonView)>::empty(),
        }) + (match n.inputs {
            Some(m) => seq![
                (
                    "inputs"@,
                    JsonView::Obj(Seq::new(m@.len(), |i: int| (m@[i].0@, enc_input_ref(m@[i].1@)))),
                ),
            ],
            None => Seq::<(Seq<char>, JsonView)>::empty(),
        }),
    )
}

/// A whole lockfile; the node map serializes in its key order.
pub open spec fn enc_lockfile(lf: LockFile) -> JsonView {
    JsonView::Obj(
        seq![
            (
                "nodes"@,
                JsonView::Obj(
                    Seq::new(lf.nodes@.len(), |i: int| (lf.nodes@[i].0@, enc_node(lf.nodes@[i].1))),
                ),
            ),
            ("root"@, JsonView::Str(lf.root@)),
            ("version"@, JsonView::Int(lf.version as i64)),
        ],
    )
}

// ------------------------------------------------------------------
// Decoding, at the view level
// ------------------------------------------------------------------

/// The variant a serialized tag names.
pub open spec fn dec_type_tag(t: Seq<char>) -> Option<FlakeType> {
    if t == "path"@ {
        Some(FlakeType::Path)
    } else if t == "git"@ {
        Some(FlakeType::Git)
    } else if t == "mercurial"@ {
        Some(FlakeType::Mercurial)
    } else if t == "tarball"@ {
        Some(FlakeType::Tarball)
    } else if t == "file"@ {
        Some(FlakeType::File)
    } else if t == "github"@ {
        Some(FlakeType::GitHub)
    } else if t == "gitlab"@ {
        Some(FlakeType::GitLab)
    } else if t == "sourcehut"@ {
        Some(FlakeType::SourceHut)
    } else if t == "flake"@ {
        Some(FlakeType::Indirect)
    } else {
        None
    }
}

/// An optional string field: absent is fine, any non-string is not.
pub open spec fn dec_opt_str(es: Seq<(Seq<char>, JsonView)>, k: Seq<char>) -> Option<
    Option<Seq<char>>,
> {
    match obj_get(es, k) {
        None => Some(None),
        Some(JsonView::Str(s)) => Some(Some(s)),
        Some(_) => None,
    }
}

pub open spec fn dec_opt_int(es: Seq<(Seq<char>, JsonView)>, k: Seq<char>) -> Option<Option<i64>> {
    match obj_get(es, k) {
        None => Some(None),
        Some(JsonView::Int(n)) => Some(Some(n)),
        Some(_) => None,
    }
}

pub open spec fn dec_input_spec(j: JsonView) -> Option<InputSpecView> {
    match j {
        JsonView::Obj(es) => {
            match obj_get(es, "type"@) {
                Some(JsonView::Str(tag)) => match dec_type_tag(tag) {
                    Some(ft) => {
                        let nar_hash = dec_opt_str(es, "narHash"@);
                        let url = dec_opt_str(es, "url"@);
                        let owner = dec_opt_str(es, "owner"@);
                        let repo = dec_opt_str(es, "repo"@);
                        let dir = dec_opt_str(es, "dir"@);
                        let rev = dec_opt_str(es, "rev"@);
                        let git_ref = dec_opt_str(es, "ref"@);
                        let rev_count = dec_opt_int(es, "revCount"@);
                        let last_modified = dec_opt_int(es, "lastModified"@);
                        if nar_hash is Some && url is Some && owner is Some && repo is Some && dir
                            is Some && rev is Some && git_ref is Some && rev_count is Some
                            && last_modified is Some {
                            Some(
                                InputSpecView {
                                    flake_type: ft,
                                    nar_hash: nar_hash->Some_0,
                                    url: url->Some_0,
                                    owner: owner->Some_0,
                                    repo: repo->Some_0,
                                    dir: dir->Some_0,
                                    rev: rev->Some_0,
                                    git_ref: git_ref->Some_0,
                                    rev_count: rev_count->Some_0,
                                    last_modified: last_modified->Some_0,
                                },
                            )
                        } else {
                            None
                        }
                    },
                    None => None,
                },
                _ => None,
            }
        },
        _ => None,
    }
}

pub open spec fn dec_input_ref(j: JsonView) -> Option<InputRefView> {
    match j {
        JsonView::Str(n) => Some(InputRefView::Direct(n)),
        JsonView::Arr(items) => {
            if forall|i: int| 0 <= i < items.len() ==> (#[trigger] items[i]) is Str {
                Some(InputRefView::Path(Seq::new(items.len(), |i: int| items[i]->Str_0)))
            } else {
                None
            }
        },
        _ => None,
    }
}

/// Fold object entries into a map of decoded edges; later entries win.
pub open spec fn dec_ref_map(es: Seq<(Seq<char>, JsonView)>) -> Option<
    Map<Seq<char>, InputRefView>,
>
    decreases es.len(),
{
    if es.len() == 0 {
        Some(Map::empty())
    } else {
        match (dec_ref_map(es.drop_last()), dec_input_ref(es.last().1)) {
            (Some(m), Some(r)) => Some(m.insert(es.last().0, r)),
            _ => None,
        }
    }
}

pub open spec fn dec_opt_spec_field(es: Seq<(Seq<char>, JsonView)>, k: Seq<char>) -> Option<
    Option<InputSpecView>,
> {
    match obj_get(es, k) {
        None => Some(None),
        Some(v) => match dec_input_spec(v) {
            Some(s) => Some(Some(s)),
            None => None,
        },
    }
}

pub open spec fn dec_node(j: JsonView) -> Option<LockedRefView> {
    match j {
        JsonView::Obj(es) => {
            let flake = match obj_get(es, "flake"@) {
                None => Some(None),
                Some(JsonView::Bool(b)) => Some(Some(b)),
                Some(_) => None,
            };
            let locked = dec_opt_spec_field(es, "locked"@);
            let original = dec_opt_spec_field(es, "original"@);
            let inputs = match obj_get(es, "inputs"@) {
                None => Some(None),
                Some(JsonView::Obj(ies)) => match dec_ref_map(ies) {
                    Some(m) => Some(Some(m)),
                    None => None,
                },
                Some(_) => None,
            };
            if flake is Some && locked is Some && original is Some && inputs is Some {
                Some(
                    LockedRefView {
                        flake: flake->Some_0,
                        locked: locked->Some_0,
                        original: original->Some_0,
                        inputs: inputs->Some_0,
                    },
                )
            } else {
                None
            }
        },
        _ => None,
    }
}

/// Fold object entries into the node map; later entries win.
pub open spec fn dec_node_map(es: Seq<(Seq<char>, JsonView)>) -> Option<
    Map<Seq<char>, LockedRefView>,
>
    decreases es.len(),
{
    if es.len() == 0 {
        Some(Map::empty())
    } else {
        match (dec_node_map(es.drop_last()), dec_node(es.last().1)) {
            (Some(m), Some(n)) => Some(m.insert(es.last().0, n)),
            _ => None,
        }
    }
}

pub open spec fn dec_lockfile(j: JsonView) -> Option<LockFileView> {
    match j {
        JsonView::Obj(es) => {
            match (obj_get(es, "nodes"@), obj_get(es, "root"@), obj_get(es, "version"@)) {
                (Some(JsonView::Obj(nes)), Some(JsonView::Str(root)), Some(JsonView::Int(v))) => {
                    if i32::MIN as i64 <= v <= i32::MAX as i64 {
                        match dec_node_map(nes) {
                            Some(nodes) => Some(LockFileView { nodes, root, version: v as int }),
                            None => None,
                        }
                    } else {
                        None
                    }
                },
                _ => None,
            }
        },
        _ => None,
    }
}


// ------------------------------------------------------------------
// The round-trip law: decoding an encoding yields the same document
// ------------------------------------------------------------------

/// `obj_get` over a left-associated ten-piece concatenation.
proof fn lemma_get10(
    f0: Seq<(Seq<char>, JsonView)>,
    f1: Seq<(Seq<char>, JsonView)>,
    f2: Seq<(Seq<char>, JsonView)>,
    f3: Seq<(Seq<char>, JsonView)>,
    f4: Seq<(Seq<char>, JsonView)>,
    f5: Seq<(Seq<char>, JsonView)>,
    f6: Seq<(Seq<char>, JsonView)>,
    f7: Seq<(Seq<char>, JsonView)>,
    f8: Seq<(Seq<char>, JsonView)>,
    f9: Seq<(Seq<char>, JsonView)>,
    k: Seq<char>,
)
    ensures
        ({
            let whole = f0 + f1 + f2 + f3 + f4 + f5 + f6 + f7 + f8 + f9;
            obj_get(whole, k) == (match obj_get(f0, k) {
                Some(v) => Some(v),
                None => match obj_get(f1, k) {
                    Some(v) => Some(v),
                    None => match obj_get(f2, k) {
                        Some(v) => Some(v),
                        None => match obj_get(f3, k) {
                            Some(v) => Some(v),
                            None => match obj_get(f4, k) {
                                Some(v) => Some(v),
                                None => match obj_get(f5, k) {
                                    Some(v) => Some(v),
                                    None => match obj_get(f6, k) {
                                        Some(v) => Some(v),
                                        None => match obj_get(f7, k) {
                                            Some(v) => Some(v),
                                            None => match obj_get(f8, k) {
                                                Some(v) => Some(v),
                                                None => obj_get(f9, k),
                                            },
                                        },
                                    },
                                },
                            },
                        },
                    },
                },
            })
        }),
{
    lemma_obj_get_concat(f0, f1, k);
    lemma_obj_get_concat(f0 + f1, f2, k);
    lemma_obj_get_concat(f0 + f1 + f2, f3, k);
    lemma_obj_get_concat(f0 + f1 + f2 + f3, f4, k);
    lemma_obj_get_concat(f0 + f1 + f2 + f3 + f4, f5, k);
    lemma_obj_get_concat(f0 + f1 + f2 + f3 + f4 + f5, f6, k);
    lemma_obj_get_concat(f0 + f1 + f2 + f3 + f4 + f5 + f6, f7, k);
    lemma_obj_get_concat(f0 + f1 + f2 + f3 + f4 + f5 + f6 + f7, f8, k);
    lemma_obj_get_concat(f0 + f1 + f2 + f3 + f4 + f5 + f6 + f7 + f8, f9, k);
}

/// The content of the serialized field-name literals.
proof fn lemma_field_lits()
    ensures
        "type"@ != "narHash"@ && "type"@ != "url"@ && "type"@ != "owner"@ && "type"@ != "repo"@
            && "type"@ != "dir"@ && "type"@ != "rev"@ && "type"@ != "ref"@ && "type"@
            != "revCount"@ && "type"@ != "lastModified"@,
        "narHash"@ != "url"@ && "narHash"@ != "owner"@ && "narHash"@ != "repo"@ && "narHash"@
            != "dir"@ && "narHash"@ != "rev"@ && "narHash"@ != "ref"@ && "narHash"@ != "revCount"@
            && "narHash"@ != "lastModified"@,
        "url"@ != "owner"@ && "url"@ != "repo"@ && "url"@ != "dir"@ && "url"@ != "rev"@ && "url"@
            != "ref"@ && "url"@ != "revCount"@ && "url"@ != "lastModified"@,
        "owner"@ != "repo"@ && "owner"@ != "dir"@ && "owner"@ != "rev"@ && "owner"@ != "ref"@
            && "owner"@ != "revCount"@ && "owner"@ != "lastModified"@,
        "repo"@ != "dir"@ && "repo"@ != "rev"@ && "repo"@ != "ref"@ && "repo"@ != "revCount"@
            && "repo"@ != "lastModified"@,
        "dir"@ != "rev"@ && "dir"@ != "ref"@ && "dir"@ != "revCount"@ && "dir"@
            != "lastModified"@,
        "rev"@ != "ref"@ && "rev"@ != "revCount"@ && "rev"@ != "lastModified"@,
        "ref"@ != "revCount"@ && "ref"@ != "lastModified"@,
        "revCount"@ != "lastModified"@,
{
    reveal_strlit("type");
    reveal_strlit("narHash");
    reveal_strlit("url");
    reveal_strlit("owner");
    reveal_strlit("repo");
    reveal_strlit("dir");
    reveal_strlit("rev");
    reveal_strlit("ref");
    reveal_strlit("revCount");
    reveal_strlit("lastModified");
    assert("type"@.len() == 4 && "type"@[0] == 't');
    assert("narHash"@.len() == 7);
    assert("url"@.len() == 3 && "url"@[0] == 'u');
    assert("owner"@.len() == 5);
    assert("repo"@.len() == 4 && "repo"@[0] == 'r');
    assert("dir"@.len() == 3 && "dir"@[0] == 'd');
    assert("rev"@.len() == 3 && "rev"@[0] == 'r' && "rev"@[2] == 'v');
    assert("ref"@.len() == 3 && "ref"@[0] == 'r' && "ref"@[2] == 'f');
    assert("revCount"@.len() == 8);
    assert("lastModified"@.len() == 12);
}

/// Distinct type tags decode back to their variants.
proof fn lemma_type_tag_rt(ft: FlakeType)
    ensures
        dec_type_tag(type_tag(ft)) == Some(ft),
{
    reveal_strlit("path");
    reveal_strlit("git");
    reveal_strlit("mercurial");
    reveal_strlit("tarball");
    reveal_strlit("file");
    reveal_strlit("github");
    reveal_strlit("gitlab");
    reveal_strlit("sourcehut");
    reveal_strlit("flake");
    assert("path"@.len() == 4 && "path"@[0] == 'p');
    assert("git"@.len() == 3);
    assert("mercurial"@.len() == 9 && "mercurial"@[0] == 'm');
    assert("tarball"@.len() == 7);
    assert("file"@.len() == 4 && "file"@[0] == 'f');
    assert("github"@.len() == 6 && "github"@[3] == 'h');
    assert("gitlab"@.len() == 6 && "gitlab"@[3] == 'l');
    assert("sourcehut"@.len() == 9 && "sourcehut"@[0] == 's');
    assert("flake"@.len() == 5);
}

proof fn lemma_input_spec_rt(s: InputSpecView)
    ensures
        dec_input_spec(JsonView::Obj(enc_input_spec(s))) == Some(s),
{
    reveal_with_fuel(obj_get, 3);
    lemma_field_lits();
    lemma_type_tag_rt(s.flake_type);
    let f0 = seq![("type"@, JsonView::Str(type_tag(s.flake_type)))];
    let f1 = opt_str_field("narHash"@, s.nar_hash);
    let f2 = opt_str_field("url"@, s.url);
    let f3 = opt_str_field("owner"@, s.owner);
    let f4 = opt_str_field("repo"@, s.repo);
    let f5 = opt_str_field("dir"@, s.dir);
    let f6 = opt_str_field("rev"@, s.rev);
    let f7 = opt_str_field("ref"@, s.git_ref);
    let f8 = opt_int_field("revCount"@, s.rev_count);
    let f9 = opt_int_field("lastModified"@, s.last_modified);
    lemma_get10(f0, f1, f2, f3, f4, f5, f6, f7, f8, f9, "type"@);
    lemma_get10(f0, f1, f2, f3, f4, f5, f6, f7, f8, f9, "narHash"@);
    lemma_get10(f0, f1, f2, f3, f4, f5, f6, f7, f8, f9, "url"@);
    lemma_get10(f0, f1, f2, f3, f4, f5, f6, f7, f8, f9, "owner"@);
    lemma_get10(f0, f1, f2, f3, f4, f5, f6, f7, f8, f9, "repo"@);
    lemma_get10(f0, f1, f2, f3, f4, f5, f6, f7, f8, f9, "dir"@);
    lemma_get10(f0, f1, f2, f3, f4, f5, f6, f7, f8, f9, "rev"@);
    lemma_get10(f0, f1, f2, f3, f4, f5, f6, f7, f8, f9, "ref"@);
    lemma_get10(f0, f1, f2, f3, f4, f5, f6, f7, f8, f9, "revCount"@);
    lemma_get10(f0, f1, f2, f3, f4, f5, f6, f7, f8, f9, "lastModified"@);
    let es = enc_input_spec(s);
    assert(es == f0 + f1 + f2 + f3 + f4 + f5 + f6 + f7 + f8 + f9);
    assert(obj_get(f0, "type"@) == Some(JsonView::Str(type_tag(s.flake_type))));
    assert(obj_get(es, "type"@) == Some(JsonView::Str(type_tag(s.flake_type))));
    assert(dec_opt_str(es, "narHash"@) == Some(s.nar_hash));
    assert(dec_opt_str(es, "url"@) == Some(s.url));
    assert(dec_opt_str(es, "owner"@) == Some(s.owner));
    assert(dec_opt_str(es, "repo"@) == Some(s.repo));
    assert(dec_opt_str(es, "dir"@) == Some(s.dir));
    assert(dec_opt_str(es, "rev"@) == Some(s.rev));
    assert(dec_opt_str(es, "ref"@) == Some(s.git_ref));
    assert(dec_opt_int(es, "revCount"@) == Some(s.rev_count));
    assert(dec_opt_int(es, "lastModified"@) == Some(s.last_modified));
    assert(dec_input_spec(JsonView::Obj(es))->Some_0 == s);
}

proof fn lemma_input_ref_rt(r: InputRefView)
    ensures
        dec_input_ref(enc_input_ref(r)) == Some(r),
{
    match r {
        InputRefView::Direct(_) => {},
        InputRefView::Path(p) => {
            let items = Seq::new(p.len(), |i: int| JsonView::Str(p[i]));
            assert(forall|i: int| 0 <= i < items.len() ==> (#[trigger] items[i]) is Str);
            assert(Seq::new(items.len(), |i: int| items[i]->Str_0) =~= p);
        },
    }
}

/// `obj_get` over a left-associated four-piece concatenation.
proof fn lemma_get4(
    f0: Seq<(Seq<char>, JsonView)>,
    f1: Seq<(Seq<char>, JsonView)>,
    f2: Seq<(Seq<char>, JsonView)>,
    f3: Seq<(Seq<char>, JsonView)>,
    k: Seq<char>,
)
    ensures
        obj_get(f0 + f1 + f2 + f3, k) == (match obj_get(f0, k) {
            Some(v) => Some(v),
            None => match obj_get(f1, k) {
                Some(v) => Some(v),
                None => match obj_get(f2, k) {
                    Some(v) => Some(v),
                    None => obj_get(f3, k),
                },
            },
        }),
{
    lemma_obj_get_concat(f0, f1, k);
    lemma_obj_get_concat(f0 + f1, f2, k);
    lemma_obj_get_concat(f0 + f1 + f2, f3, k);
}

/// Fold of viewed insertions equals the viewed fold of insertions.
proof fn lemma_vfold_refs(s: Seq<(String, InputRef)>)
    ensures
        dec_ref_map(Seq::new(s.len(), |i: int| (s[i].0@, enc_input_ref(s[i].1@)))) == Some(
            deep_map(crate::strmap::map_of(s)),
        ),
    decreases s.len(),
{
    let es = Seq::new(s.len(), |i: int| (s[i].0@, enc_input_ref(s[i].1@)));
    if s.len() == 0 {
        assert(deep_map(crate::strmap::map_of(s)) =~= Map::<Seq<char>, InputRefView>::empty());
    } else {
        lemma_vfold_refs(s.drop_last());
        assert(es.drop_last() =~= Seq::new(
            s.drop_last().len(),
            |i: int| (s.drop_last()[i].0@, enc_input_ref(s.drop_last()[i].1@)),
        ));
        lemma_input_ref_rt(s.last().1@);
        assert(es.last() == (s.last().0@, enc_input_ref(s.last().1@)));
        assert(deep_map(crate::strmap::map_of(s)) =~= deep_map(
            crate::strmap::map_of(s.drop_last()),
        ).insert(s.last().0@, s.last().1@));
    }
}

proof fn lemma_node_lits()
    ensures
        "flake"@ != "locked"@ && "flake"@ != "original"@ && "flake"@ != "inputs"@,
        "locked"@ != "original"@ && "locked"@ != "inputs"@,
        "original"@ != "inputs"@,
{
    reveal_strlit("flake");
    reveal_strlit("locked");
    reveal_strlit("original");
    reveal_strlit("inputs");
    assert("flake"@.len() == 5);
    assert("locked"@.len() == 6 && "locked"@[0] == 'l');
    assert("original"@.len() == 8);
    assert("inputs"@.len() == 6 && "inputs"@[0] == 'i');
}

proof fn lemma_node_rt(n: LockedRef)
    ensures
        dec_node(enc_node(n)) == Some(n@),
{
    reveal_with_fuel(obj_get, 3);
    lemma_node_lits();
    let f0 = match n.flake {
        Some(b) => seq![("flake"@, JsonView::Bool(b))],
        None => Seq::<(Seq<char>, JsonView)>::empty(),
    };
    let f1 = match n.locked {
        Some(s) => seq![("locked"@, JsonView::Obj(enc_input_spec(s@)))],
        None => Seq::<(Seq<char>, JsonView)>::empty(),
    };
    let f2 = match n.original {
        Some(s) => seq![("original"@, JsonView::Obj(enc_input_spec(s@)))],
        None => Seq::<(Seq<char>, JsonView)>::empty(),
    };
    let f3 = match n.inputs {
        Some(m) => seq![
            (
                "inputs"@,
                JsonView::Obj(Seq::new(m@.len(), |i: int| (m@[i].0@, enc_input_ref(m@[i].1@)))),
            ),
        ],
        None => Seq::<(Seq<char>, JsonView)>::empty(),
    };
    lemma_get4(f0, f1, f2, f3, "flake"@);
    lemma_get4(f0, f1, f2, f3, "locked"@);
    lemma_get4(f0, f1, f2, f3, "original"@);
    lemma_get4(f0, f1, f2, f3, "inputs"@);
    match n.locked {
        Some(s) => {
            lemma_input_spec_rt(s@);
        },
        None => {},
    }
    match n.original {
        Some(s) => {
            lemma_input_spec_rt(s@);
        },
        None => {},
    }
    match n.inputs {
        Some(m) => {
            lemma_vfold_refs(m@);
        },
        None => {},
    }
    assert(dec_node(enc_node(n))->Some_0 == n@);
}

/// Fold of viewed node insertions equals the viewed node map.
proof fn lemma_vfold_nodes(s: Seq<(String, LockedRef)>)
    ensures
        dec_node_map(Seq::new(s.len(), |i: int| (s[i].0@, enc_node(s[i].1)))) == Some(
            deep_map(crate::strmap::map_of(s)),
        ),
    decreases s.len(),
{
    let es = Seq::new(s.len(), |i: int| (s[i].0@, enc_node(s[i].1)));
    if s.len() == 0 {
        assert(deep_map(crate::strmap::map_of(s)) =~= Map::<Seq<char>, LockedRefView>::empty());
    } else {
        lemma_vfold_nodes(s.drop_last());
        assert(es.drop_last() =~= Seq::new(
            s.drop_last().len(),
            |i: int| (s.drop_last()[i].0@, enc_node(s.drop_last()[i].1)),
        ));
        lemma_node_rt(s.last().1);
        assert(es.last() == (s.last().0@, enc_node(s.last().1)));
        assert(deep_map(crate::strmap::map_of(s)) =~= deep_map(
            crate::strmap::map_of(s.drop_last()),
        ).insert(s.last().0@, s.last().1@));
    }
}

/// Reading back what was written yields the same document: decoding
/// the encoding of any lockfile returns exactly its view.
pub proof fn lemma_lockfile_round_trip(lf: LockFile)
    ensures
        dec_lockfile(enc_lockfile(lf)) == Some(lf@),
{
    reveal_with_fuel(obj_get, 5);
    reveal_strlit("nodes");
    reveal_strlit("root");
    reveal_strlit("version");
    assert("nodes"@.len() == 5);
    assert("root"@.len() == 4);
    assert("version"@.len() == 7);
    let nodes_entry = (
        "nodes"@,
        JsonView::Obj(
            Seq::new(lf.nodes@.len(), |i: int| (lf.nodes@[i].0@, enc_node(lf.nodes@[i].1))),
        ),
    );
    let es = seq![
        nodes_entry,
        ("root"@, JsonView::Str(lf.root@)),
        ("version"@, JsonView::Int(lf.version as i64)),
    ];
    assert(es.skip(1) =~= seq![
        ("root"@, JsonView::Str(lf.root@)),
        ("version"@, JsonView::Int(lf.version as i64)),
    ]);
    assert(es.skip(1).skip(1) =~= seq![("version"@, JsonView::Int(lf.version as i64))]);
    assert(obj_get(es, "nodes"@) == Some(nodes_entry.1));
    assert(obj_get(es, "root"@) == Some(JsonView::Str(lf.root@)));
    assert(obj_get(es, "version"@) == Some(JsonView::Int(lf.version as i64)));
    lemma_vfold_nodes(lf.nodes@);
    assert(dec_lockfile(enc_lockfile(lf))->Some_0 == lf@);
}


// ------------------------------------------------------------------
// Executable encoding
// ------------------------------------------------------------------

/// The entry views of a built object, defined pointwise.
pub open spec fn entry_views(es: Seq<(String, Json)>) -> Seq<(Seq<char>, JsonView)> {
    Seq::new(es.len(), |i: int| (es[i].0@, json_view(es[i].1)))
}

proof fn lemma_items_view(v: Vec<Json>, i: int)
    requires
        0 <= i <= v@.len(),
    ensures
        json_view_items(v, i).len() == v@.len() - i,
        forall|j: int|
            0 <= j < v@.len() - i ==> #[trigger] json_view_items(v, i)[j] == json_view(v@[i + j]),
    decreases v@.len() - i,
{
    if i < v@.len() {
        lemma_items_view(v, i + 1);
        assert(json_view_items(v, i) == seq![json_view(v@[i])] + json_view_items(v, i + 1));
        assert forall|j: int|
            0 <= j < v@.len() - i implies #[trigger] json_view_items(v, i)[j] == json_view(
            v@[i + j],
        ) by {
            if j == 0 {
                assert(json_view_items(v, i)[0] == json_view(v@[i]));
            } else {
                assert(json_view_items(v, i)[j] == json_view_items(v, i + 1)[j - 1]);
                assert(json_view_items(v, i + 1)[j - 1] == json_view(v@[(i + 1) + (j - 1)]));
                assert(v@[(i + 1) + (j - 1)] == v@[i + j]);
            }
        }
    } else {
        assert(json_view_items(v, i).len() == 0);
    }
}

proof fn lemma_entries_view(v: Vec<(String, Json)>, i: int)
    requires
        0 <= i <= v@.len(),
    ensures
        json_view_entries(v, i).len() == v@.len() - i,
        forall|j: int|
            0 <= j < v@.len() - i ==> #[trigger] json_view_entries(v, i)[j] == (v@[i + j].0@,
            json_view(v@[i + j].1)),
    decreases v@.len() - i,
{
    if i < v@.len() {
        lemma_entries_view(v, i + 1);
        assert(json_view_entries(v, i) == seq![(v@[i].0@, json_view(v@[i].1))]
            + json_view_entries(v, i + 1));
        assert forall|j: int|
            0 <= j < v@.len() - i implies #[trigger] json_view_entries(v, i)[j] == (v@[i + j].0@,
        json_view(v@[i + j].1)) by {
            if j == 0 {
                assert(json_view_entries(v, i)[0] == (v@[i].0@, json_view(v@[i].1)));
            } else {
                assert(json_view_entries(v, i)[j] == json_view_entries(v, i + 1)[j - 1]);
                assert(json_view_entries(v, i + 1)[j - 1] == ((v@[(i + 1) + (j - 1)]).0@,
                json_view(v@[(i + 1) + (j - 1)].1)));
                assert(v@[(i + 1) + (j - 1)] == v@[i + j]);
            }
        }
    } else {
        assert(json_view_entries(v, i).len() == 0);
    }
}

/// Append an optional string field to a built object.
fn push_opt_str(entries: &mut Vec<(String, Json)>, key: &str, v: &Option<String>)
    ensures
        entry_views(final(entries)@) == entry_views(old(entries)@) + opt_str_field(
            key@,
            opt_view(*v),
        ),
{
    match v {
        Some(x) => {
            entries.push((key.to_owned(), Json::Str(x.clone())));
            proof {
                assert(entry_views(entries@) =~= entry_views(old(entries)@) + opt_str_field(
                    key@,
                    opt_view(*v),
                ));
            }
        },
        None => {
            proof {
                assert(entry_views(entries@) =~= entry_views(old(entries)@) + opt_str_field(
                    key@,
                    opt_view(*v),
                ));
            }
        },
    }
}

/// Append an optional integer field to a built object.
fn push_opt_int(entries: &mut Vec<(String, Json)>, key: &str, v: &Option<i64>)
    ensures
        entry_views(final(entries)@) == entry_views(old(entries)@) + opt_int_field(key@, *v),
{
    match v {
        Some(x) => {
            entries.push((key.to_owned(), Json::Int(*x)));
            proof {
                assert(entry_views(entries@) =~= entry_views(old(entries)@) + opt_int_field(
                    key@,
                    *v,
                ));
            }
        },
        None => {
            proof {
                assert(entry_views(entries@) =~= entry_views(old(entries)@) + opt_int_field(
                    key@,
                    *v,
                ));
            }
        },
    }
}

fn input_spec_to_json(s: &InputSpec) -> (r: Json)
    ensures
        r@ == JsonView::Obj(enc_input_spec(s@)),
{
    let mut entries: Vec<(String, Json)> = Vec::new();
    entries.push((String::from_str("type"), Json::Str(type_tag_ex(s.flake_type))));
    proof {
        assert(entry_views(entries@) =~= seq![("type"@, JsonView::Str(type_tag(s@.flake_type)))]);
    }
    push_opt_str(&mut entries, "narHash", &s.nar_hash);
    push_opt_str(&mut entries, "url", &s.url);
    push_opt_str(&mut entries, "owner", &s.owner);
    push_opt_str(&mut entries, "repo", &s.repo);
    push_opt_str(&mut entries, "dir", &s.dir);
    push_opt_str(&mut entries, "rev", &s.rev);
    push_opt_str(&mut entries, "ref", &s.git_ref);
    push_opt_int(&mut entries, "revCount", &s.rev_count);
    push_opt_int(&mut entries, "lastModified", &s.last_modified);
    let r = Json::Obj(entries);
    proof {
        lemma_entries_view(r->Obj_0, 0);
        assert(json_view_entries(r->Obj_0, 0) =~= entry_views(r->Obj_0@));
        assert(entry_views(r->Obj_0@) == enc_input_spec(s@));
    }
    r
}

/// The serialized tag of a variant, as a fresh string.
fn type_tag_ex(ft: FlakeType) -> (r: String)
    ensures
        r@ == type_tag(ft),
{
    match ft {
        FlakeType::Path => String::from_str("path"),
        FlakeType::Git => String::from_str("git"),
        FlakeType::Mercurial => String::from_str("mercurial"),
        FlakeType::Tarball => String::from_str("tarball"),
        FlakeType::File => String::from_str("file"),
        FlakeType::GitHub => String::from_str("github"),
        FlakeType::GitLab => String::from_str("gitlab"),
        FlakeType::SourceHut => String::from_str("sourcehut"),
        FlakeType::Indirect => String::from_str("flake"),
    }
}

fn input_ref_to_json(r: &InputRef) -> (out: Json)
    ensures
        out@ == enc_input_ref(r@),
{
    match r {
        InputRef::Direct(n) => Json::Str(n.clone()),
        InputRef::Path(p) => {
            let n = p.len();
            let mut items: Vec<Json> = Vec::new();
            let mut i: usize = 0;
            while i < n
                invariant
                    n == p@.len(),
                    0 <= i <= n,
                    items@.len() == i,
                    forall|j: int| 0 <= j < i ==> #[trigger] items@[j] == Json::Str(p@[j]),
                decreases n - i,
            {
                items.push(Json::Str(p[i].clone()));
                i = i + 1;
            }
            let out = Json::Arr(items);
            proof {
                lemma_items_view(out->Arr_0, 0);
                assert forall|j: int| 0 <= j < n implies json_view_items(out->Arr_0, 0)[j]
                    == JsonView::Str(r@->Path_0[j]) by {
                    assert(out->Arr_0@[j] == Json::Str(p@[j]));
                }
                assert(json_view_items(out->Arr_0, 0) =~= enc_input_ref(r@)->Arr_0);
            }
            out
        },
    }
}

fn node_to_json(n: &LockedRef) -> (r: Json)
    ensures
        r@ == enc_node(*n),
{
    let mut entries: Vec<(String, Json)> = Vec::new();
    let ghost mut acc: Seq<(Seq<char>, JsonView)> = Seq::empty();
    proof {
        assert(entry_views(entries@) =~= acc);
    }
    if let Some(b) = n.flake {
        entries.push((String::from_str("flake"), Json::Bool(b)));
    }
    proof {
        acc = acc + (match n.flake {
            Some(b) => seq![("flake"@, JsonView::Bool(b))],
            None => Seq::<(Seq<char>, JsonView)>::empty(),
        });
        assert(entry_views(entries@) =~= acc);
    }
    if let Some(sp) = &n.locked {
        entries.push((String::from_str("locked"), input_spec_to_json(sp)));
    }
    proof {
        acc = acc + (match &n.locked {
            Some(sp) => seq![("locked"@, JsonView::Obj(enc_input_spec(sp@)))],
            None => Seq::<(Seq<char>, JsonView)>::empty(),
        });
        assert(entry_views(entries@) =~= acc);
    }
    if let Some(sp) = &n.original {
        entries.push((String::from_str("original"), input_spec_to_json(sp)));
    }
    proof {
        acc = acc + (match &n.original {
            Some(sp) => seq![("original"@, JsonView::Obj(enc_input_spec(sp@)))],
            None => Seq::<(Seq<char>, JsonView)>::empty(),
        });
        assert(entry_views(entries@) =~= acc);
    }
    if let Some(m) = &n.inputs {
        let count = m.len();
        let mut ies: Vec<(String, Json)> = Vec::new();
        let mut i: usize = 0;
        while i < count
            invariant
                count == m@.len(),
                0 <= i <= count,
                ies@.len() == i,
                forall|j: int|
                    0 <= j < i ==> #[trigger] ies@[j].0 == m@[j].0 && ies@[j].1@ == enc_input_ref(
                        m@[j].1@,
                    ),
            decreases count - i,
        {
            ies.push((m.key_at(i).clone(), input_ref_to_json(m.val_at(i))));
            i = i + 1;
        }
        let inner = Json::Obj(ies);
        proof {
            lemma_entries_view(inner->Obj_0, 0);
            assert(json_view_entries(inner->Obj_0, 0) =~= Seq::new(
                m@.len(),
                |j: int| (m@[j].0@, enc_input_ref(m@[j].1@)),
            ));
        }
        entries.push((String::from_str("inputs"), inner));
    }
    proof {
        acc = acc + (match &n.inputs {
            Some(m) => seq![
                (
                    "inputs"@,
                    JsonView::Obj(
                        Seq::new(m@.len(), |i: int| (m@[i].0@, enc_input_ref(m@[i].1@))),
                    ),
                ),
            ],
            None => Seq::<(Seq<char>, JsonView)>::empty(),
        });
        assert(entry_views(entries@) =~= acc);
    }
    let r = Json::Obj(entries);
    proof {
        lemma_entries_view(r->Obj_0, 0);
        assert(json_view_entries(r->Obj_0, 0) =~= entry_views(r->Obj_0@));
        assert(acc =~= enc_node(*n)->Obj_0);
    }
    r
}

impl LockFile {
    /// Encode this lockfile into its document tree.
    pub fn to_json(&self) -> (r: Json)
        ensures
            r@ == enc_lockfile(*self),
    {
        let count = self.nodes.len();
        let mut nes: Vec<(String, Json)> = Vec::new();
        let mut i: usize = 0;
        while i < count
            invariant
                count == self.nodes@.len(),
                0 <= i <= count,
                nes@.len() == i,
                forall|j: int|
                    0 <= j < i ==> #[trigger] nes@[j].0 == self.nodes@[j].0 && nes@[j].1@
                        == enc_node(self.nodes@[j].1),
            decreases count - i,
        {
            nes.push((self.nodes.key_at(i).clone(), node_to_json(self.nodes.val_at(i))));
            i = i + 1;
        }
        let nodes_json = Json::Obj(nes);
        proof {
            lemma_entries_view(nodes_json->Obj_0, 0);
            assert(json_view_entries(nodes_json->Obj_0, 0) =~= Seq::new(
                self.nodes@.len(),
                |j: int| (self.nodes@[j].0@, enc_node(self.nodes@[j].1)),
            ));
        }
        let mut entries: Vec<(String, Json)> = Vec::new();
        entries.push((String::from_str("nodes"), nodes_json));
        entries.push((String::from_str("root"), Json::Str(self.root.clone())));
        entries.push((String::from_str("version"), Json::Int(self.version as i64)));
        let r = Json::Obj(entries);
        proof {
            lemma_entries_view(r->Obj_0, 0);
            assert(json_view_entries(r->Obj_0, 0) =~= enc_lockfile(*self)->Obj_0);
        }
        r
    }
}


// ------------------------------------------------------------------
// Executable decoding
// ------------------------------------------------------------------

/// The document does not fit the lockfile schema.
#[derive(Clone, Copy, Debug, PartialEq, Eq, Structural)]
pub enum CodecError {
    BadDocument,
}

fn obj_get_ex<'a>(entries: &'a Vec<(String, Json)>, k: &str) -> (r: Option<&'a Json>)
    ensures
        match r {
            Some(v) => obj_get(entry_views(entries@), k@) == Some(json_view(*v)),
            None => obj_get(entry_views(entries@), k@) is None,
        },
{
    let ghost ev = entry_views(entries@);
    proof {
        assert(ev.skip(0) =~= ev);
    }
    let n = entries.len();
    let mut i: usize = 0;
    while i < n
        invariant
            n == entries@.len(),
            0 <= i <= n,
            ev == entry_views(entries@),
            obj_get(ev, k@) == obj_get(ev.skip(i as int), k@),
        decreases n - i,
    {
        proof {
            assert(ev.skip(i as int)[0] == ev[i as int]);
            assert(ev.skip(i as int).skip(1) =~= ev.skip(i + 1));
        }
        if str_eq(entries[i].0.as_str(), k) {
            return Some(&entries[i].1);
        }
        i = i + 1;
    }
    proof {
        assert(ev.skip(n as int).len() == 0);
    }
    None
}

fn dec_type_tag_ex(t: &str) -> (r: Option<FlakeType>)
    ensures
        r == dec_type_tag(t@),
{
    if str_eq(t, "path") {
        Some(FlakeType::Path)
    } else if str_eq(t, "git") {
        Some(FlakeType::Git)
    } else if str_eq(t, "mercurial") {
        Some(FlakeType::Mercurial)
    } else if str_eq(t, "tarball") {
        Some(FlakeType::Tarball)
    } else if str_eq(t, "file") {
        Some(FlakeType::File)
    } else if str_eq(t, "github") {
        Some(FlakeType::GitHub)
    } else if str_eq(t, "gitlab") {
        Some(FlakeType::GitLab)
    } else if str_eq(t, "sourcehut") {
        Some(FlakeType::SourceHut)
    } else if str_eq(t, "flake") {
        Some(FlakeType::Indirect)
    } else {
        None
    }
}

fn get_opt_str(entries: &Vec<(String, Json)>, k: &str) -> (r: Result<Option<String>, CodecError>)
    ensures
        match r {
            Ok(o) => dec_opt_str(entry_views(entries@), k@) == Some(opt_view(o)),
            Err(_) => dec_opt_str(entry_views(entries@), k@) is None,
        },
{
    match obj_get_ex(entries, k) {
        None => Ok(None),
        Some(Json::Str(v)) => Ok(Some(v.clone())),
        Some(_) => Err(CodecError::BadDocument),
    }
}

fn get_opt_int(entries: &Vec<(String, Json)>, k: &str) -> (r: Result<Option<i64>, CodecError>)
    ensures
        match r {
            Ok(o) => dec_opt_int(entry_views(entries@), k@) == Some(o),
            Err(_) => dec_opt_int(entry_views(entries@), k@) is None,
        },
{
    match obj_get_ex(entries, k) {
        None => Ok(None),
        Some(Json::Int(v)) => Ok(Some(*v)),
        Some(_) => Err(CodecError::BadDocument),
    }
}

fn input_spec_from_json(j: &Json) -> (r: Result<InputSpec, CodecError>)
    ensures
        match r {
            Ok(s) => dec_input_spec(j@) == Some(s@),
            Err(_) => dec_input_spec(j@) is None,
        },
{
    let entries = match j {
        Json::Obj(entries) => entries,
        _ => {
            return Err(CodecError::BadDocument);
        },
    };
    proof {
        lemma_entries_view(*entries, 0);
        assert(json_view_entries(*entries, 0) =~= entry_views(entries@));
    }
    let tag = match obj_get_ex(entries, "type") {
        Some(Json::Str(t)) => t,
        _ => {
            return Err(CodecError::BadDocument);
        },
    };
    let ft = match dec_type_tag_ex(tag.as_str()) {
        Some(ft) => ft,
        None => {
            return Err(CodecError::BadDocument);
        },
    };
    let nar_hash = match get_opt_str(entries, "narHash") {
        Ok(o) => o,
        Err(e) => {
            return Err(e);
        },
    };
    let url = match get_opt_str(entries, "url") {
        Ok(o) => o,
        Err(e) => {
            return Err(e);
        },
    };
    let owner = match get_opt_str(entries, "owner") {
        Ok(o) => o,
        Err(e) => {
            return Err(e);
        },
    };
    let repo = match get_opt_str(entries, "repo") {
        Ok(o) => o,
        Err(e) => {
            return Err(e);
        },
    };
    let dir = match get_opt_str(entries, "dir") {
        Ok(o) => o,
        Err(e) => {
            return Err(e);
        },
    };
    let rev = match get_opt_str(entries, "rev") {
        Ok(o) => o,
        Err(e) => {
            return Err(e);
        },
    };
    let git_ref = match get_opt_str(entries, "ref") {
        Ok(o) => o,
        Err(e) => {
            return Err(e);
        },
    };
    let rev_count = match get_opt_int(entries, "revCount") {
        Ok(o) => o,
        Err(e) => {
            return Err(e);
        },
    };
    let last_modified = match get_opt_int(entries, "lastModified") {
        Ok(o) => o,
        Err(e) => {
            return Err(e);
        },
    };
    Ok(
        InputSpec {
            flake_type: ft,
            nar_hash,
            url,
            owner,
            repo,
            dir,
            rev,
            git_ref,
            rev_count,
            last_modified,
        },
    )
}

fn input_ref_from_json(j: &Json) -> (r: Result<InputRef, CodecError>)
    ensures
        match r {
            Ok(ir) => dec_input_ref(j@) == Some(ir@),
            Err(_) => dec_input_ref(j@) is None,
        },
{
    match j {
        Json::Str(n) => Ok(InputRef::Direct(n.clone())),
        Json::Arr(items) => {
            proof {
                lemma_items_view(*items, 0);
            }
            let ghost iv = json_view_items(*items, 0);
            let n = items.len();
            let mut path: Vec<String> = Vec::new();
            let mut i: usize = 0;
            while i < n
                invariant
                    n == items@.len(),
                    j@ == JsonView::Arr(iv),
                    iv == json_view_items(*items, 0),
                    iv.len() == n,
                    forall|j2: int| 0 <= j2 < n ==> #[trigger] iv[j2] == json_view(items@[j2]),
                    0 <= i <= n,
                    path@.len() == i,
                    forall|j2: int| 0 <= j2 < i ==> (#[trigger] iv[j2]) is Str,
                    forall|j2: int| 0 <= j2 < i ==> #[trigger] path@[j2]@ == iv[j2]->Str_0,
                decreases n - i,
            {
                match &items[i] {
                    Json::Str(s) => {
                        path.push(s.clone());
                    },
                    _ => {
                        proof {
                            assert(iv[i as int] == json_view(items@[i as int]));
                            assert(!(iv[i as int] is Str));
                        }
                        return Err(CodecError::BadDocument);
                    },
                }
                i = i + 1;
            }
            let out = InputRef::Path(path);
            proof {
                assert(forall|j2: int| 0 <= j2 < iv.len() ==> (#[trigger] iv[j2]) is Str);
                assert(Seq::new(iv.len(), |j2: int| iv[j2]->Str_0) =~= out@->Path_0);
            }
            Ok(out)
        },
        _ => Err(CodecError::BadDocument),
    }
}

/// A failing entry makes the whole edge-map fold fail.
proof fn lemma_dec_ref_map_none(es: Seq<(Seq<char>, JsonView)>, i: int)
    requires
        0 <= i < es.len(),
        dec_input_ref(es[i].1) is None,
    ensures
        dec_ref_map(es) is None,
    decreases es.len(),
{
    if i == es.len() - 1 {
    } else {
        lemma_dec_ref_map_none(es.drop_last(), i);
    }
}

/// A failing entry makes the whole node-map fold fail.
proof fn lemma_dec_node_map_none(es: Seq<(Seq<char>, JsonView)>, i: int)
    requires
        0 <= i < es.len(),
        dec_node(es[i].1) is None,
    ensures
        dec_node_map(es) is None,
    decreases es.len(),
{
    if i == es.len() - 1 {
    } else {
        lemma_dec_node_map_none(es.drop_last(), i);
    }
}

fn node_from_json(j: &Json) -> (r: Result<LockedRef, CodecError>)
    ensures
        match r {
            Ok(n) => dec_node(j@) == Some(n@) && n.wf(),
            Err(_) => dec_node(j@) is None,
        },
{
    let entries = match j {
        Json::Obj(entries) => entries,
        _ => {
            return Err(CodecError::BadDocument);
        },
    };
    proof {
        lemma_entries_view(*entries, 0);
        assert(json_view_entries(*entries, 0) =~= entry_views(entries@));
    }
    let flake = match obj_get_ex(entries, "flake") {
        None => None,
        Some(Json::Bool(b)) => Some(*b),
        Some(_) => {
            return Err(CodecError::BadDocument);
        },
    };
    let locked = match obj_get_ex(entries, "locked") {
        None => None,
        Some(v) => match input_spec_from_json(v) {
            Ok(sp) => Some(sp),
            Err(e) => {
                return Err(e);
            },
        },
    };
    let original = match obj_get_ex(entries, "original") {
        None => None,
        Some(v) => match input_spec_from_json(v) {
            Ok(sp) => Some(sp),
            Err(e) => {
                return Err(e);
            },
        },
    };
    let inputs = match obj_get_ex(entries, "inputs") {
        None => None,
        Some(inner) => {
            let ies = match inner {
                Json::Obj(ies) => ies,
                _ => {
                    return Err(CodecError::BadDocument);
                },
            };
            proof {
                lemma_entries_view(*ies, 0);
                assert(json_view_entries(*ies, 0) =~= entry_views(ies@));
            }
            let ghost iv = entry_views(ies@);
            let count = ies.len();
            let mut m: StrMap<InputRef> = StrMap::new();
            let mut i: usize = 0;
            while i < count
                invariant
                    count == ies@.len(),
                    j@ == JsonView::Obj(entry_views(entries@)),
                    obj_get(entry_views(entries@), "inputs"@) == Some(JsonView::Obj(iv)),
                    iv == entry_views(ies@),
                    iv.len() == count,
                    0 <= i <= count,
                    m.wf(),
                    dec_ref_map(iv.take(i as int)) == Some(deep_map(m.as_map())),
                decreases count - i,
            {
                let ir = match input_ref_from_json(&ies[i].1) {
                    Ok(ir) => ir,
                    Err(e) => {
                        proof {
                            assert(iv[i as int].1 == json_view(ies@[i as int].1));
                            lemma_dec_ref_map_none(iv, i as int);
                        }
                        return Err(e);
                    },
                };
                let ghost pre = deep_map(m.as_map());
                m.insert(ies[i].0.clone(), ir);
                proof {
                    assert(iv.take(i + 1).drop_last() =~= iv.take(i as int));
                    assert(iv.take(i + 1).last() == iv[i as int]);
                    assert(iv[i as int].0 == ies@[i as int].0@);
                    assert(deep_map(m.as_map()) =~= pre.insert(ies@[i as int].0@, ir@));
                }
                i = i + 1;
            }
            proof {
                assert(iv.take(count as int) =~= iv);
            }
            Some(m)
        },
    };
    let out = LockedRef { flake, locked, original, inputs };
    proof {
        assert(dec_node(j@)->Some_0 == out@);
    }
    Ok(out)
}

impl LockFile {
    /// Decode a lockfile from its document tree.
    pub fn from_json(j: &Json) -> (r: Result<LockFile, CodecError>)
        ensures
            match r {
                Ok(lf) => dec_lockfile(j@) == Some(lf@) && lf.wf(),
                Err(_) => dec_lockfile(j@) is None,
            },
    {
        let entries = match j {
            Json::Obj(entries) => entries,
            _ => {
                return Err(CodecError::BadDocument);
            },
        };
        proof {
            lemma_entries_view(*entries, 0);
            assert(json_view_entries(*entries, 0) =~= entry_views(entries@));
        }
        let nes = match obj_get_ex(entries, "nodes") {
            Some(Json::Obj(nes)) => nes,
            _ => {
                return Err(CodecError::BadDocument);
            },
        };
        let root = match obj_get_ex(entries, "root") {
            Some(Json::Str(rootname)) => rootname.clone(),
            _ => {
                return Err(CodecError::BadDocument);
            },
        };
        let version64 = match obj_get_ex(entries, "version") {
            Some(Json::Int(v)) => *v,
            _ => {
                return Err(CodecError::BadDocument);
            },
        };
        if !(i32::MIN as i64 <= version64 && version64 <= i32::MAX as i64) {
            return Err(CodecError::BadDocument);
        }
        let version = version64 as i32;
        proof {
            lemma_entries_view(*nes, 0);
            assert(json_view_entries(*nes, 0) =~= entry_views(nes@));
        }
        let ghost nv = entry_views(nes@);
        let count = nes.len();
        let mut nodes: StrMap<LockedRef> = StrMap::new();
        let mut i: usize = 0;
        while i < count
            invariant
                count == nes@.len(),
                j@ == JsonView::Obj(entry_views(entries@)),
                obj_get(entry_views(entries@), "nodes"@) == Some(JsonView::Obj(nv)),
                nv == entry_views(nes@),
                nv.len() == count,
                0 <= i <= count,
                nodes.wf(),
                forall|k: Seq<char>|
                    nodes.as_map().contains_key(k) ==> (#[trigger] nodes.as_map()[k]).wf(),
                dec_node_map(nv.take(i as int)) == Some(deep_map(nodes.as_map())),
            decreases count - i,
        {
            let node = match node_from_json(&nes[i].1) {
                Ok(n) => n,
                Err(e) => {
                    proof {
                        assert(nv[i as int].1 == json_view(nes@[i as int].1));
                        lemma_dec_node_map_none(nv, i as int);
                    }
                    return Err(e);
                },
            };
            let ghost pre = nodes.as_map();
            let ghost nodeg = node;
            nodes.insert(nes[i].0.clone(), node);
            proof {
                assert(nv.take(i + 1).drop_last() =~= nv.take(i as int));
                assert(nv.take(i + 1).last() == nv[i as int]);
                assert(nv[i as int].0 == nes@[i as int].0@);
                assert(deep_map(nodes.as_map()) =~= deep_map(pre).insert(
                    nes@[i as int].0@,
                    nodeg@,
                ));
                assert forall|k: Seq<char>| nodes.as_map().contains_key(k) implies (
                #[trigger] nodes.as_map()[k]).wf() by {
                    if k != nes@[i as int].0@ {
                        assert(nodes.as_map()[k] == pre[k]);
                    } else {
                        assert(nodes.as_map()[k] == nodeg);
                    }
                }
            }
            i = i + 1;
        }
        proof {
            assert(nv.take(count as int) =~= nv);
        }
        let out = LockFile { nodes, root, version };
        proof {
            assert(dec_lockfile(j@)->Some_0 == out@);
        }
        Ok(out)
    }
}

} // verus!
