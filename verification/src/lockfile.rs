//! The lockfile model: a rooted, labelled input graph with pinned
//! revisions, plus the operations that maintain it (lookup, removal,
//! renaming, reachability closure and trimming).
use vstd::prelude::*;

use crate::strmap::StrMap;
use crate::strs::str_eq;

verus! {

/// Discriminator for the closed set of reference variants.
#[derive(Clone, Copy, Debug, PartialEq, Eq, Structural)]
pub enum FlakeType {
    Path,
    Git,
    Mercurial,
    Tarball,
    File,
    GitHub,
    GitLab,
    SourceHut,
    Indirect,
}

/// The flat record form of a pinned reference, as stored in lockfiles.
#[derive(Clone, Debug)]
pub struct InputSpec {
    pub flake_type: FlakeType,
    pub nar_hash: Option<String>,
    pub url: Option<String>,
    pub owner: Option<String>,
    pub repo: Option<String>,
    pub dir: Option<String>,
    pub rev: Option<String>,
    pub git_ref: Option<String>,
    pub rev_count: Option<i64>,
    pub last_modified: Option<i64>,
}

pub ghost struct InputSpecView {
    pub flake_type: FlakeType,
    pub nar_hash: Option<Seq<char>>,
    pub url: Option<Seq<char>>,
    pub owner: Option<Seq<char>>,
    pub repo: Option<Seq<char>>,
    pub dir: Option<Seq<char>>,
    pub rev: Option<Seq<char>>,
    pub git_ref: Option<Seq<char>>,
    pub rev_count: Option<i64>,
    pub last_modified: Option<i64>,
}

/// View of an optional string as an optional character sequence.
pub open spec fn opt_view(o: Option<String>) -> Option<Seq<char>> {
    match o {
        Some(s) => Some(s@),
        None => None,
    }
}

impl View for InputSpec {
    type V = InputSpecView;

    open spec fn view(&self) -> InputSpecView {
        InputSpecView {
            flake_type: self.flake_type,
            nar_hash: opt_view(self.nar_hash),
            url: opt_view(self.url),
            owner: opt_view(self.owner),
            repo: opt_view(self.repo),
            dir: opt_view(self.dir),
            rev: opt_view(self.rev),
            git_ref: opt_view(self.git_ref),
            rev_count: self.rev_count,
            last_modified: self.last_modified,
        }
    }
}

/// An exact copy of an optional string.
pub fn clone_opt_string(o: &Option<String>) -> (r: Option<String>)
    ensures
        opt_view(r) == opt_view(*o),
{
    match o {
        Some(s) => Some(s.clone()),
        None => None,
    }
}

impl InputSpec {
    /// An exact copy, stated over the views.
    pub fn duplicate(&self) -> (r: InputSpec)
        ensures
            r@ == self@,
    {
        InputSpec {
            flake_type: self.flake_type,
            nar_hash: clone_opt_string(&self.nar_hash),
            url: clone_opt_string(&self.url),
            owner: clone_opt_string(&self.owner),
            repo: clone_opt_string(&self.repo),
            dir: clone_opt_string(&self.dir),
            rev: clone_opt_string(&self.rev),
            git_ref: clone_opt_string(&self.git_ref),
            rev_count: self.rev_count,
            last_modified: self.last_modified,
        }
    }
}

/// An edge label value: a node name, or a label path to traverse.
#[derive(Debug)]
pub enum InputRef {
    Direct(String),
    Path(Vec<String>),
}

pub ghost enum InputRefView {
    Direct(Seq<char>),
    Path(Seq<Seq<char>>),
}

impl View for InputRef {
    type V = InputRefView;

    open spec fn view(&self) -> InputRefView {
        match self {
            InputRef::Direct(n) => InputRefView::Direct(n@),
            InputRef::Path(p) => InputRefView::Path(Seq::new(p@.len(), |i: int| p@[i]@)),
        }
    }
}

impl InputRef {
    /// An exact copy, stated over the views.
    pub fn duplicate(&self) -> (r: InputRef)
        ensures
            r@ == self@,
    {
        match self {
            InputRef::Direct(n) => InputRef::Direct(n.clone()),
            InputRef::Path(p) => {
                let n = p.len();
                let mut out: Vec<String> = Vec::new();
                let mut i: usize = 0;
                while i < n
                    invariant
                        n == p@.len(),
                        0 <= i <= n,
                        out@.len() == i,
                        forall|j: int| 0 <= j < i ==> #[trigger] out@[j]@ == p@[j]@,
                    decreases n - i,
                {
                    out.push(p[i].clone());
                    i = i + 1;
                }
                let r = InputRef::Path(out);
                proof {
                    assert(Seq::new(out@.len(), |i: int| out@[i]@) =~= Seq::new(
                        p@.len(),
                        |i: int| p@[i]@,
                    ));
                }
                r
            },
        }
    }

    /// Rewrite the head of the reference when it names `orig_name`.
    pub fn rename(&mut self, orig_name: &str, new_name: &str)
        ensures
            final(self)@ == rename_ref(old(self)@, orig_name@, new_name@),
    {
        match self {
            InputRef::Direct(n) => {
                if str_eq(n.as_str(), orig_name) {
                    *n = new_name.to_owned();
                }
            },
            InputRef::Path(p) => {
                let ghost p0 = Seq::new(old(self)->Path_0@.len(), |i: int| old(self)->Path_0@[i]@);
                if p.len() > 0 {
                    if str_eq(p[0].as_str(), orig_name) {
                        p.set(0, new_name.to_owned());
                        proof {
                            assert(Seq::new(p@.len(), |i: int| p@[i]@) =~= p0.update(
                                0,
                                new_name@,
                            ));
                        }
                    } else {
                        proof {
                            assert(Seq::new(p@.len(), |i: int| p@[i]@) =~= p0);
                        }
                    }
                } else {
                    proof {
                        assert(Seq::new(p@.len(), |i: int| p@[i]@) =~= p0);
                    }
                }
            },
        }
    }
}

/// The head-rename a lockfile-wide rename applies to one reference.
pub open spec fn rename_ref(r: InputRefView, o: Seq<char>, n: Seq<char>) -> InputRefView {
    match r {
        InputRefView::Direct(m) => InputRefView::Direct(
            if m == o {
                n
            } else {
                m
            },
        ),
        InputRefView::Path(p) => {
            if p.len() > 0 && p[0] == o {
                InputRefView::Path(p.update(0, n))
            } else {
                InputRefView::Path(p)
            }
        },
    }
}

/// A lockfile node: an optional pin plus optional child edges.
#[derive(Debug)]
pub struct LockedRef {
    pub flake: Option<bool>,
    pub locked: Option<InputSpec>,
    pub original: Option<InputSpec>,
    pub inputs: Option<StrMap<InputRef>>,
}

pub ghost struct LockedRefView {
    pub flake: Option<bool>,
    pub locked: Option<InputSpecView>,
    pub original: Option<InputSpecView>,
    pub inputs: Option<Map<Seq<char>, InputRefView>>,
}

/// The abstract map denoted by a string-keyed map of viewable values.
pub open spec fn deep_map<V: View>(m: Map<Seq<char>, V>) -> Map<Seq<char>, V::V> {
    Map::new(|k: Seq<char>| m.contains_key(k), |k: Seq<char>| m[k]@)
}

impl View for LockedRef {
    type V = LockedRefView;

    open spec fn view(&self) -> LockedRefView {
        LockedRefView {
            flake: self.flake,
            locked: match self.locked {
                Some(s) => Some(s@),
                None => None,
            },
            original: match self.original {
                Some(s) => Some(s@),
                None => None,
            },
            inputs: match self.inputs {
                Some(m) => Some(deep_map(m.as_map())),
                None => None,
            },
        }
    }
}

impl LockedRef {
    /// Whether the node's own invariants hold (its input map is sorted).
    pub open spec fn wf(&self) -> bool {
        match self.inputs {
            Some(m) => m.wf(),
            None => true,
        }
    }
}

/// A rooted labelled graph of pinned nodes.
#[derive(Debug)]
pub struct LockFile {
    pub nodes: StrMap<LockedRef>,
    pub root: String,
    pub version: i32,
}

pub ghost struct LockFileView {
    pub nodes: Map<Seq<char>, LockedRefView>,
    pub root: Seq<char>,
    pub version: int,
}

impl View for LockFile {
    type V = LockFileView;

    open spec fn view(&self) -> LockFileView {
        LockFileView {
            nodes: deep_map(self.nodes.as_map()),
            root: self.root@,
            version: self.version as int,
        }
    }
}

/// The current lockfile schema version.
pub const LOCK_VERSION: i32 = 7;

/// The document `empty()` builds: one bare root node with no edges.
pub open spec fn is_empty_lockfile(l: LockFileView) -> bool {
    &&& l.root == "root"@
    &&& l.version == LOCK_VERSION as int
    &&& l.nodes.dom() == set!["root"@]
    &&& l.nodes["root"@].flake is None
    &&& l.nodes["root"@].locked is None
    &&& l.nodes["root"@].original is None
    &&& l.nodes["root"@].inputs == Some(Map::<Seq<char>, InputRefView>::empty())
}

impl LockFile {
    /// Structural invariants: the node map and every node are sorted.
    pub open spec fn wf(&self) -> bool {
        &&& self.nodes.wf()
        &&& forall|k: Seq<char>|
            self.nodes.as_map().contains_key(k) ==> (#[trigger] self.nodes.as_map()[k]).wf()
    }

    pub proof fn lemma_node_wf(&self, k: Seq<char>)
        requires
            self.wf(),
            self.nodes.as_map().contains_key(k),
        ensures
            self.nodes.as_map()[k].wf(),
    {
    }

    /// An empty lockfile: a single root node with no edges and no pin.
    pub fn empty() -> (r: LockFile)
        ensures
            r.wf(),
            is_empty_lockfile(r@),
    {
        let mut nodes: StrMap<LockedRef> = StrMap::new();
        let rootref = LockedRef {
            flake: None,
            locked: None,
            original: None,
            inputs: Some(StrMap::new()),
        };
        nodes.insert(String::from_str("root"), rootref);
        let r = LockFile { nodes, root: String::from_str("root"), version: LOCK_VERSION };
        proof {
            r.nodes.lemma_props();
            assert(r@.nodes.dom() =~= set!["root"@]);
            assert(deep_map(r.nodes.as_map())["root"@].inputs == Some(
                deep_map(Map::<Seq<char>, InputRef>::empty()),
            ));
            assert(deep_map(Map::<Seq<char>, InputRef>::empty()) =~= Map::<
                Seq<char>,
                InputRefView,
            >::empty());
        }
        r
    }

    /// The pinned `InputSpec` of a node, when both exist.
    pub fn get_input_spec(&self, name: &str) -> (r: Option<InputSpec>)
        requires
            self.wf(),
        ensures
            match r {
                Some(s) => {
                    &&& self@.nodes.contains_key(name@)
                    &&& self@.nodes[name@].locked == Some(s@)
                },
                None => !self@.nodes.contains_key(name@) || self@.nodes[name@].locked is None,
            },
    {
        match self.nodes.get(name) {
            Some(node) => match &node.locked {
                Some(spec) => Some(spec.duplicate()),
                None => None,
            },
            None => None,
        }
    }
}


// ------------------------------------------------------------------
// Errors and renaming
// ------------------------------------------------------------------

/// Reasons a lockfile operation fails.
#[derive(Clone, Copy, Debug, PartialEq, Eq, Structural)]
pub enum LockError {
    /// The node named by `root` is missing from the node map.
    MissingRoot,
    /// An input reference does not resolve to a present node.
    DanglingInput,
    /// A project label expected after a merge is missing.
    MissingProject,
}

/// A node with one entry of its input map removed.
pub open spec fn node_rm_input(n: LockedRefView, l: Seq<char>) -> LockedRefView {
    LockedRefView {
        flake: n.flake,
        locked: n.locked,
        original: n.original,
        inputs: match n.inputs {
            Some(m) => Some(m.remove(l)),
            None => None,
        },
    }
}

/// Whether removing `name` would leave the lockfile without its root
/// node: exactly the case `rm` reports as an error.
pub open spec fn rm_blocked(l: LockFileView, name: Seq<char>) -> bool {
    l.nodes.contains_key(name) && !l.nodes.remove(name).contains_key(l.root)
}

/// The node map after a successful `rm`: the node gone and the root's
/// edge to it dropped.
pub open spec fn rm_nodes(l: LockFileView, name: Seq<char>) -> Map<Seq<char>, LockedRefView> {
    if !l.nodes.contains_key(name) {
        l.nodes
    } else {
        let removed = l.nodes.remove(name);
        removed.insert(l.root, node_rm_input(removed[l.root], name))
    }
}

/// A node with every input reference head-renamed.
pub open spec fn rename_node_view(n: LockedRefView, o: Seq<char>, nn: Seq<char>) -> LockedRefView {
    LockedRefView {
        flake: n.flake,
        locked: n.locked,
        original: n.original,
        inputs: match n.inputs {
            Some(m) => Some(
                Map::new(|k: Seq<char>| m.contains_key(k), |k: Seq<char>| rename_ref(m[k], o, nn)),
            ),
            None => None,
        },
    }
}

/// Every node of a map head-renamed.
pub open spec fn rename_all_view(
    m: Map<Seq<char>, LockedRefView>,
    o: Seq<char>,
    nn: Seq<char>,
) -> Map<Seq<char>, LockedRefView> {
    Map::new(|k: Seq<char>| m.contains_key(k), |k: Seq<char>| rename_node_view(m[k], o, nn))
}

/// Head-rename every reference of one input map in place.
fn rename_refs(m: &mut StrMap<InputRef>, o: &str, nn: &str)
    requires
        old(m).wf(),
    ensures
        final(m).wf(),
        deep_map(final(m).as_map()) == Map::new(
            |k: Seq<char>| deep_map(old(m).as_map()).contains_key(k),
            |k: Seq<char>| rename_ref(deep_map(old(m).as_map())[k], o@, nn@),
        ),
{
    let n = m.len();
    let mut i: usize = 0;
    while i < n
        invariant
            old(m).wf(),
            n == m@.len(),
            0 <= i <= n,
            m@.len() == old(m)@.len(),
            forall|x: int| 0 <= x < n ==> #[trigger] m@[x].0 == old(m)@[x].0,
            forall|x: int| 0 <= x < i ==> #[trigger] m@[x].1@ == rename_ref(old(m)@[x].1@, o@, nn@),
            forall|x: int| i <= x < n ==> #[trigger] m@[x].1 == old(m)@[x].1,
        decreases n - i,
    {
        let r = m.val_at_mut(i);
        r.rename(o, nn);
        i = i + 1;
    }
    proof {
        assert forall|x: int, y: int| 0 <= x < y < m@.len() implies crate::strs::lex_lt(
            #[trigger] m@[x].0@,
            #[trigger] m@[y].0@,
        ) by {
            assert(m@[x].0 == old(m)@[x].0 && m@[y].0 == old(m)@[y].0);
        }
        m.lemma_props();
        old(m).lemma_props();
        crate::strmap::lemma_sorted_distinct(old(m)@);
        let lhs = deep_map(m.as_map());
        let rhs = Map::new(
            |k: Seq<char>| deep_map(old(m).as_map()).contains_key(k),
            |k: Seq<char>| rename_ref(deep_map(old(m).as_map())[k], o@, nn@),
        );
        assert forall|k: Seq<char>| lhs.contains_key(k) implies rhs.contains_key(k) && lhs[k]
            == rhs[k] by {
            let x = choose|x: int| 0 <= x < m@.len() && #[trigger] m@[x].0@ == k;
            assert(old(m)@[x].0@ == k);
            assert(m.as_map()[k] == m@[x].1);
            assert(old(m).as_map()[k] == old(m)@[x].1);
        }
        assert forall|k: Seq<char>| rhs.contains_key(k) implies lhs.contains_key(k) by {
            let x = choose|x: int| 0 <= x < old(m)@.len() && #[trigger] old(m)@[x].0@ == k;
            assert(m@[x].0@ == k);
        }
        assert(lhs =~= rhs);
    }
}

/// Head-rename every reference of one node in place.
fn rename_node(node: &mut LockedRef, o: &str, nn: &str)
    requires
        old(node).wf(),
    ensures
        final(node).wf(),
        final(node)@ == rename_node_view(old(node)@, o@, nn@),
{
    match &mut node.inputs {
        Some(m) => {
            rename_refs(m, o, nn);
        },
        None => {},
    }
}

impl LockFile {
    /// Remove a node and the root's edge to it. Removing an absent
    /// name changes nothing. Transitive dependents stay; see `trim`.
    pub fn rm(&mut self, name: &str) -> (r: Result<(), LockError>)
        requires
            old(self).wf(),
        ensures
            final(self).wf(),
            final(self)@.root == old(self)@.root,
            final(self)@.version == old(self)@.version,
            !old(self)@.nodes.contains_key(name@) ==> r is Ok && final(self)@ == old(self)@,
            old(self)@.nodes.contains_key(name@) ==> {
                let removed = old(self)@.nodes.remove(name@);
                if removed.contains_key(old(self)@.root) {
                    &&& r is Ok
                    &&& final(self)@.nodes == removed.insert(
                        old(self)@.root,
                        node_rm_input(removed[old(self)@.root], name@),
                    )
                } else {
                    &&& r == Err::<(), LockError>(LockError::MissingRoot)
                    &&& final(self)@.nodes == removed
                }
            },
            r is Ok <==> !rm_blocked(old(self)@, name@),
            r is Ok ==> final(self)@.nodes == rm_nodes(old(self)@, name@),
    {
        if !self.nodes.contains_key(name) {
            proof {
                assert(final(self)@ =~~= old(self)@);
            }
            return Ok(());
        }
        self.nodes.remove(name);
        proof {
            assert(deep_map(self.nodes.as_map()) =~= old(self)@.nodes.remove(name@));
            assert forall|k: Seq<char>| self.nodes.as_map().contains_key(k) implies (
            #[trigger] self.nodes.as_map()[k]).wf() by {
                assert(self.nodes.as_map()[k] == old(self).nodes.as_map()[k]);
            }
        }
        let ghost removed = deep_map(self.nodes.as_map());
        let rootkey = self.root.clone();
        match self.nodes.remove(rootkey.as_str()) {
            None => {
                proof {
                    assert(deep_map(self.nodes.as_map()) =~= removed);
                }
                Err(LockError::MissingRoot)
            },
            Some(mut rootnode) => {
                let ghost nv = rootnode@;
                proof {
                    assert(old(self).nodes.as_map().contains_key(old(self)@.root));
                    old(self).lemma_node_wf(old(self)@.root);
                    assert(rootnode.wf());
                }
                match &mut rootnode.inputs {
                    Some(inputs) => {
                        inputs.remove(name);
                        proof {
                            assert(deep_map(inputs.as_map()) =~= nv.inputs->Some_0.remove(name@));
                        }
                    },
                    None => {},
                }
                proof {
                    assert(rootnode@ == node_rm_input(nv, name@));
                    assert(nv == removed[old(self)@.root]);
                }
                self.nodes.insert(rootkey, rootnode);
                proof {
                    assert(deep_map(self.nodes.as_map()) =~= removed.insert(
                        old(self)@.root,
                        node_rm_input(removed[old(self)@.root], name@),
                    ));
                    assert forall|k: Seq<char>| self.nodes.as_map().contains_key(k) implies (
                    #[trigger] self.nodes.as_map()[k]).wf() by {
                        if k != old(self)@.root {
                            assert(self.nodes.as_map()[k] == old(self).nodes.as_map()[k]);
                        }
                    }
                }
                Ok(())
            },
        }
    }

    /// Rename a node: rewrite the head of every input reference that
    /// names it, then move the node itself under the new key.
    /// Renaming an absent name changes nothing.
    pub fn rename_input(&mut self, input_name: &str, new_name: &str)
        requires
            old(self).wf(),
        ensures
            final(self).wf(),
            final(self)@.root == old(self)@.root,
            final(self)@.version == old(self)@.version,
            !old(self)@.nodes.contains_key(input_name@) ==> final(self)@ == old(self)@,
            old(self)@.nodes.contains_key(input_name@) ==> final(self)@.nodes == rename_all_view(
                old(self)@.nodes,
                input_name@,
                new_name@,
            ).remove(input_name@).insert(
                new_name@,
                rename_node_view(old(self)@.nodes[input_name@], input_name@, new_name@),
            ),
    {
        if !self.nodes.contains_key(input_name) {
            proof {
                assert(final(self)@ =~~= old(self)@);
            }
            return ;
        }
        let n = self.nodes.len();
        let mut i: usize = 0;
        while i < n
            invariant
                old(self).wf(),
                old(self)@.nodes.contains_key(input_name@),
                n == self.nodes@.len(),
                0 <= i <= n,
                self.nodes@.len() == old(self).nodes@.len(),
                self.root == old(self).root,
                self.version == old(self).version,
                forall|x: int| 0 <= x < n ==> #[trigger] self.nodes@[x].0 == old(self).nodes@[x].0,
                forall|x: int|
                    0 <= x < i ==> #[trigger] self.nodes@[x].1.wf() && self.nodes@[x].1@
                        == rename_node_view(old(self).nodes@[x].1@, input_name@, new_name@),
                forall|x: int| i <= x < n ==> #[trigger] self.nodes@[x].1 == old(self).nodes@[x].1,
            decreases n - i,
        {
            let ghost prev = self.nodes@;
            proof {
                old(self).nodes.lemma_props();
                assert(old(self).nodes@[i as int].1 == old(self).nodes.as_map()[old(
                    self,
                ).nodes@[i as int].0@]);
                assert(old(self).nodes.as_map()[old(self).nodes@[i as int].0@].wf());
            }
            let node = self.nodes.val_at_mut(i);
            rename_node(node, input_name, new_name);
            proof {
                assert(self.nodes@ == prev.update(
                    i as int,
                    (prev[i as int].0, self.nodes@[i as int].1),
                ));
                assert(self.nodes@[i as int].1@ == rename_node_view(
                    old(self).nodes@[i as int].1@,
                    input_name@,
                    new_name@,
                ));
                assert forall|x: int| 0 <= x < i implies #[trigger] self.nodes@[x].1.wf()
                    && self.nodes@[x].1@ == rename_node_view(
                    old(self).nodes@[x].1@,
                    input_name@,
                    new_name@,
                ) by {
                    assert(self.nodes@[x] == prev[x]);
                }
            }
            i = i + 1;
        }
        proof {
            assert forall|x: int, y: int| 0 <= x < y < self.nodes@.len() implies crate::strs::lex_lt(
                #[trigger] self.nodes@[x].0@,
                #[trigger] self.nodes@[y].0@,
            ) by {
                assert(self.nodes@[x].0 == old(self).nodes@[x].0);
                assert(self.nodes@[y].0 == old(self).nodes@[y].0);
            }
            self.nodes.lemma_props();
            old(self).nodes.lemma_props();
            crate::strmap::lemma_sorted_distinct(old(self).nodes@);
            assert forall|k: Seq<char>| deep_map(self.nodes.as_map()).contains_key(k) implies
                deep_map(self.nodes.as_map())[k] == rename_node_view(
                old(self)@.nodes[k],
                input_name@,
                new_name@,
            ) && old(self)@.nodes.contains_key(k) by {
                let x = choose|x: int|
                    0 <= x < self.nodes@.len() && #[trigger] self.nodes@[x].0@ == k;
                assert(old(self).nodes@[x].0@ == k);
                assert(self.nodes.as_map()[k] == self.nodes@[x].1);
                assert(old(self).nodes.as_map()[k] == old(self).nodes@[x].1);
                assert(self.nodes@[x].1.wf() && self.nodes@[x].1@ == rename_node_view(
                    old(self).nodes@[x].1@,
                    input_name@,
                    new_name@,
                ));
            }
            assert forall|k: Seq<char>| old(self)@.nodes.contains_key(k) implies deep_map(
                self.nodes.as_map(),
            ).contains_key(k) by {
                let x = choose|x: int|
                    0 <= x < old(self).nodes@.len() && #[trigger] old(self).nodes@[x].0@ == k;
                assert(self.nodes@[x].0@ == k);
            }
            assert(deep_map(self.nodes.as_map()) =~= rename_all_view(
                old(self)@.nodes,
                input_name@,
                new_name@,
            ));
            assert forall|k: Seq<char>| self.nodes.as_map().contains_key(k) implies (
            #[trigger] self.nodes.as_map()[k]).wf() by {
                let x = choose|x: int|
                    0 <= x < self.nodes@.len() && #[trigger] self.nodes@[x].0@ == k;
                assert(self.nodes.as_map()[k] == self.nodes@[x].1);
            }
        }
        let ghost mid = deep_map(self.nodes.as_map());
        match self.nodes.remove(input_name) {
            Some(node) => {
                proof {
                    assert(deep_map(self.nodes.as_map()) =~= mid.remove(input_name@));
                    assert(node@ == mid[input_name@]);
                }
                let ghost premove = self.nodes.as_map();
                self.nodes.insert(new_name.to_owned(), node);
                proof {
                    assert(deep_map(self.nodes.as_map()) =~= mid.remove(input_name@).insert(
                        new_name@,
                        mid[input_name@],
                    ));
                    assert forall|k: Seq<char>| self.nodes.as_map().contains_key(k) implies (
                    #[trigger] self.nodes.as_map()[k]).wf() by {
                        if k != new_name@ {
                            assert(self.nodes.as_map()[k] == premove[k]);
                        }
                    }
                }
            },
            None => {
                proof {
                    assert(false);
                }
            },
        }
    }
}

// ------------------------------------------------------------------
// Resolution, closure and trim
// ------------------------------------------------------------------

/// The nesting depth to which indirect references are chased before
/// the lockfile is reported malformed; a guard against cycles.
pub const RESOLVE_DEPTH: u64 = 64;

/// Resolve a reference to a node name: a direct reference is its own
/// answer; a path is walked label by label.
pub open spec fn spec_resolve(
    m: Map<Seq<char>, LockedRefView>,
    r: InputRefView,
    depth: nat,
) -> Option<Seq<char>>
    decreases depth, (match r {
        InputRefView::Direct(_) => 0,
        InputRefView::Path(p) => p.len() + 1,
    }), 1int,
{
    match r {
        InputRefView::Direct(n) => Some(n),
        InputRefView::Path(p) => {
            if p.len() == 0 {
                None
            } else {
                spec_get_by_path(m, p[0], p.skip(1), depth)
            }
        },
    }
}

pub open spec fn spec_get_by_path(
    m: Map<Seq<char>, LockedRefView>,
    name: Seq<char>,
    path: Seq<Seq<char>>,
    depth: nat,
) -> Option<Seq<char>>
    decreases depth, path.len(), 0int,
{
    if path.len() == 0 {
        Some(name)
    } else if !m.contains_key(name) {
        None
    } else {
        match m[name].inputs {
            None => None,
            Some(inputs) => {
                if !inputs.contains_key(path[0]) {
                    None
                } else if depth == 0 {
                    None
                } else {
                    match spec_resolve(m, inputs[path[0]], (depth - 1) as nat) {
                        None => None,
                        Some(t) => spec_get_by_path(m, t, path.skip(1), depth),
                    }
                }
            },
        }
    }
}

impl LockFile {
    fn get_by_path(&self, name: String, path: &Vec<String>, from: usize, depth: u64) -> (r: Result<
        String,
        LockError,
    >)
        requires
            self.wf(),
            from <= path@.len(),
        ensures
            match r {
                Ok(t) => spec_get_by_path(
                    self@.nodes,
                    name@,
                    Seq::new((path@.len() - from) as nat, |i: int| path@[from + i]@),
                    depth as nat,
                ) == Some(t@),
                Err(e) => {
                    &&& spec_get_by_path(
                        self@.nodes,
                        name@,
                        Seq::new((path@.len() - from) as nat, |i: int| path@[from + i]@),
                        depth as nat,
                    ) is None
                    &&& e == LockError::DanglingInput
                },
            },
        decreases depth, path@.len() - from, 0int,
    {
        let ghost pv = Seq::new((path@.len() - from) as nat, |i: int| path@[from + i]@);
        if from >= path.len() {
            return Ok(name);
        }
        proof {
            assert(pv[0] == path@[from as int]@);
        }
        match self.nodes.get(name.as_str()) {
            None => Err(LockError::DanglingInput),
            Some(node) => {
                proof {
                    self.lemma_node_wf(name@);
                }
                match &node.inputs {
                    None => Err(LockError::DanglingInput),
                    Some(inputs) => {
                        match inputs.get(path[from].as_str()) {
                            None => {
                                proof {
                                    assert(!self@.nodes[name@].inputs->Some_0.contains_key(pv[0]));
                                }
                                Err(LockError::DanglingInput)
                            },
                            Some(ir) => {
                                if depth == 0 {
                                    return Err(LockError::DanglingInput);
                                }
                                proof {
                                    assert(self@.nodes[name@].inputs->Some_0[pv[0]] == ir@);
                                }
                                match self.resolve_at(ir, depth - 1) {
                                    Err(e) => Err(e),
                                    Ok(t) => {
                                        let res = self.get_by_path(t, path, from + 1, depth);
                                        proof {
                                            assert(Seq::new(
                                                (path@.len() - (from + 1)) as nat,
                                                |i: int| path@[from + 1 + i]@,
                                            ) =~= pv.skip(1));
                                        }
                                        res
                                    },
                                }
                            },
                        }
                    },
                }
            },
        }
    }

    fn resolve_at(&self, input_ref: &InputRef, depth: u64) -> (r: Result<String, LockError>)
        requires
            self.wf(),
        ensures
            match r {
                Ok(t) => spec_resolve(self@.nodes, input_ref@, depth as nat) == Some(t@),
                Err(e) => {
                    &&& spec_resolve(self@.nodes, input_ref@, depth as nat) is None
                    &&& e == LockError::DanglingInput
                },
            },
        decreases depth, (match input_ref@ {
            InputRefView::Direct(_) => 0,
            InputRefView::Path(p) => p.len() + 1,
        }), 1int,
    {
        match input_ref {
            InputRef::Direct(n) => Ok(n.clone()),
            InputRef::Path(p) => {
                if p.len() == 0 {
                    Err(LockError::DanglingInput)
                } else {
                    let res = self.get_by_path(p[0].clone(), p, 1, depth);
                    proof {
                        let ghost pv = input_ref@->Path_0;
                        assert(Seq::new((p@.len() - 1) as nat, |i: int| p@[1 + i]@) =~= pv.skip(1));
                        assert(pv[0] == p@[0]@);
                    }
                    res
                }
            },
        }
    }

    /// Resolve an input reference against this lockfile.
    pub fn resolve_input(&self, input_ref: &InputRef) -> (r: Result<String, LockError>)
        requires
            self.wf(),
        ensures
            match r {
                Ok(t) => spec_resolve(self@.nodes, input_ref@, RESOLVE_DEPTH as nat) == Some(t@),
                Err(e) => {
                    &&& spec_resolve(self@.nodes, input_ref@, RESOLVE_DEPTH as nat) is None
                    &&& e == LockError::DanglingInput
                },
            },
    {
        self.resolve_at(input_ref, RESOLVE_DEPTH)
    }
}


/// A resolvable edge between present nodes.
pub open spec fn succ_ok(m: Map<Seq<char>, LockedRefView>, v: Seq<char>, t: Seq<char>) -> bool {
    &&& m.contains_key(v)
    &&& match m[v].inputs {
        Some(inp) => exists|l: Seq<char>|
            inp.contains_key(l) && spec_resolve(m, #[trigger] inp[l], RESOLVE_DEPTH as nat)
                == Some(t),
        None => false,
    }
    &&& m.contains_key(t)
}

/// A walk from the root along resolvable edges.
pub open spec fn is_chain(m: Map<Seq<char>, LockedRefView>, root: Seq<char>, c: Seq<Seq<char>>) -> bool {
    &&& c.len() >= 1
    &&& c[0] == root
    &&& forall|i: int| 0 <= i < c.len() - 1 ==> succ_ok(m, c[i], #[trigger] c[i + 1])
}

pub open spec fn reachable(m: Map<Seq<char>, LockedRefView>, root: Seq<char>, t: Seq<char>) -> bool {
    exists|c: Seq<Seq<char>>| #[trigger] is_chain(m, root, c) && c.last() == t
}

/// Every reference of every reachable present node resolves.
pub open spec fn res_ok(m: Map<Seq<char>, LockedRefView>, root: Seq<char>) -> bool {
    forall|v: Seq<char>, l: Seq<char>|
        {
            (reachable(m, root, v) && m.contains_key(v) && m[v].inputs is Some
                && m[v].inputs->Some_0.contains_key(l)) ==> spec_resolve(
                m,
                #[trigger] m[v].inputs->Some_0[l],
                RESOLVE_DEPTH as nat,
            ) is Some
        }
}

/// A set that contains the root and is closed under resolvable edges
/// contains the end of every walk.
proof fn lemma_reach_in_closed(
    m: Map<Seq<char>, LockedRefView>,
    root: Seq<char>,
    s: Set<Seq<char>>,
    c: Seq<Seq<char>>,
)
    requires
        s.contains(root),
        forall|v: Seq<char>, t2: Seq<char>|
            s.contains(v) && #[trigger] succ_ok(m, v, t2) ==> s.contains(t2),
        is_chain(m, root, c),
    ensures
        s.contains(c.last()),
    decreases c.len(),
{
    if c.len() == 1 {
        assert(c.last() == root);
    } else {
        let c2 = c.drop_last();
        assert(is_chain(m, root, c2));
        lemma_reach_in_closed(m, root, s, c2);
        assert(succ_ok(m, c[c.len() - 2], c[c.len() - 2 + 1]));
        assert(c[c.len() - 2 + 1] == c.last());
        assert(c2.last() == c[c.len() - 2]);
    }
}

/// A duplicate-free vector of names drawn from a key list plus the
/// root has at most one entry more than the key list.
proof fn lemma_distinct_in_dom_bound(vs: Seq<String>, km: Seq<Seq<char>>, root: Seq<char>)
    requires
        forall|i: int, j: int| 0 <= i < j < vs.len() ==> #[trigger] vs[i]@ != #[trigger] vs[j]@,
        forall|i: int|
            0 <= i < vs.len() ==> #[trigger] vs[i]@ == root || km.to_set().contains(vs[i]@),
    ensures
        vs.len() <= km.len() + 1,
{
    let vsv = Seq::new(vs.len(), |i: int| vs[i]@);
    assert(vsv.no_duplicates());
    vsv.unique_seq_to_set();
    let target = km.to_set().insert(root);
    vstd::seq_lib::seq_to_set_is_finite(km);
    assert(target.finite());
    assert forall|x: Seq<char>| vsv.to_set().contains(x) implies target.contains(x) by {
        let i = choose|i: int| 0 <= i < vsv.len() && vsv[i] == x;
        assert(vs[i]@ == x);
    }
    vstd::set_lib::lemma_len_subset(vsv.to_set(), target);
    km.lemma_cardinality_of_set();
    assert(target.len() <= km.to_set().len() + 1);
}

/// Membership of a string view in a vector of strings.
pub open spec fn in_vec(v: Seq<String>, t: Seq<char>) -> bool {
    exists|i: int| 0 <= i < v.len() && #[trigger] v[i]@ == t
}

fn contains_str(v: &Vec<String>, s: &str) -> (r: bool)
    ensures
        r == in_vec(v@, s@),
{
    let n = v.len();
    let mut i: usize = 0;
    while i < n
        invariant
            n == v@.len(),
            0 <= i <= n,
            forall|j: int| 0 <= j < i ==> #[trigger] v@[j]@ != s@,
        decreases n - i,
    {
        if str_eq(v[i].as_str(), s) {
            assert(v@[i as int]@ == s@);
            return true;
        }
        i = i + 1;
    }
    false
}

/// A node whose outgoing references have all been followed: they all
/// resolve, and every present target is already collected.
pub open spec fn processed(
    m: Map<Seq<char>, LockedRefView>,
    v: Seq<char>,
    vs: Seq<String>,
) -> bool {
    (m.contains_key(v) && m[v].inputs is Some) ==> forall|l: Seq<char>|
        m[v].inputs->Some_0.contains_key(l) ==> {
            let r = spec_resolve(m, #[trigger] m[v].inputs->Some_0[l], RESOLVE_DEPTH as nat);
            &&& r is Some
            &&& (m.contains_key(r->Some_0) ==> in_vec(vs, r->Some_0))
        }
}

impl LockFile {
    /// The set of node names reachable from the root, collected
    /// breadth-first; an unresolvable reference on the way is an error.
    pub fn closure(&self) -> (r: Result<Vec<String>, LockError>)
        requires
            self.wf(),
        ensures
            match r {
                Ok(v) => {
                    &&& forall|i: int, j: int| 0 <= i < j < v@.len() ==> #[trigger] v@[i]@ != #[trigger] v@[j]@
                    &&& forall|t: Seq<char>|
                        in_vec(v@, t) <==> (reachable(self@.nodes, self@.root, t) && (t
                            == self@.root || self@.nodes.contains_key(t)))
                    &&& res_ok(self@.nodes, self@.root)
                },
                Err(e) => {
                    &&& !res_ok(self@.nodes, self@.root)
                    &&& e == LockError::DanglingInput
                },
            },
    {
        let ghost m = self@.nodes;
        let ghost root = self@.root;
        let mut visited: Vec<String> = Vec::new();
        let mut queue: Vec<String> = Vec::new();
        visited.push(self.root.clone());
        queue.push(self.root.clone());
        proof {
            assert(is_chain(m, root, seq![root]));
            assert(seq![root].last() == root);
            assert(reachable(m, root, root));
            self.nodes.lemma_props();
        }
        let ghost bound = self.nodes@.len() + 1;
        while queue.len() > 0
            invariant
                self.wf(),
                m == self@.nodes,
                root == self@.root,
                bound == self.nodes@.len() + 1,
                visited@.len() >= 1,
                visited@[0]@ == root,
                forall|i: int, j: int|
                    0 <= i < j < visited@.len() ==> #[trigger] visited@[i]@ != #[trigger] visited@[j]@,
                forall|i: int|
                    0 <= i < visited@.len() ==> #[trigger] visited@[i]@ == root
                        || m.contains_key(visited@[i]@),
                forall|i: int|
                    0 <= i < visited@.len() ==> reachable(m, root, #[trigger] visited@[i]@),
                forall|i: int|
                    0 <= i < queue@.len() ==> in_vec(visited@, #[trigger] queue@[i]@),
                forall|i: int|
                    0 <= i < visited@.len() ==> in_vec(queue@, #[trigger] visited@[i]@)
                        || processed(m, visited@[i]@, visited@),
                visited@.len() <= bound,
            decreases bound - visited@.len(), queue@.len(),
        {
            let ghost pre_visited = visited@;
            let ghost pre_queue = queue@;
            let v = match queue.pop() {
                Some(x) => x,
                None => {
                    proof {
                        assert(false);
                    }
                    return Err(LockError::DanglingInput);
                },
            };
            proof {
                assert(pre_queue[pre_queue.len() - 1] == v);
                assert(in_vec(visited@, v@));
                assert forall|i: int| 0 <= i < queue@.len() implies in_vec(
                    visited@,
                    #[trigger] queue@[i]@,
                ) by {
                    assert(queue@[i] == pre_queue[i]);
                }
            }
            let node_found = self.nodes.contains_key(v.as_str());
            if !node_found {
                proof {
                    assert forall|i: int|
                        0 <= i < visited@.len() implies in_vec(queue@, #[trigger] visited@[i]@)
                        || processed(m, visited@[i]@, visited@) by {
                        if visited@[i]@ == v@ {
                            assert(!m.contains_key(v@));
                            assert(processed(m, visited@[i]@, visited@));
                        } else if in_vec(pre_queue, visited@[i]@) {
                            let q = choose|q: int|
                                0 <= q < pre_queue.len() && #[trigger] pre_queue[q]@
                                    == visited@[i]@;
                            assert(q < pre_queue.len() - 1);
                            assert(queue@[q]@ == visited@[i]@);
                        }
                    }
                }
            } else {
                let node = match self.nodes.get(v.as_str()) {
                    Some(n) => n,
                    None => {
                        proof {
                            assert(false);
                        }
                        return Err(LockError::DanglingInput);
                    },
                };
                proof {
                    self.lemma_node_wf(v@);
                }
                match &node.inputs {
                    None => {
                        proof {
                            assert forall|i: int|
                                0 <= i < visited@.len() implies in_vec(
                                queue@,
                                #[trigger] visited@[i]@,
                            ) || processed(m, visited@[i]@, visited@) by {
                                if visited@[i]@ == v@ {
                                    assert(m[v@].inputs is None);
                                    assert(processed(m, visited@[i]@, visited@));
                                } else if in_vec(pre_queue, visited@[i]@) {
                                    let q = choose|q: int|
                                        0 <= q < pre_queue.len() && #[trigger] pre_queue[q]@
                                            == visited@[i]@;
                                    assert(q < pre_queue.len() - 1);
                                    assert(queue@[q]@ == visited@[i]@);
                                }
                            }
                        }
                    },
                    Some(inputs) => {
                        let ghost inp = deep_map(inputs.as_map());
                        proof {
                            assert(m[v@].inputs == Some(inp));
                            assert forall|i: int|
                                0 <= i < visited@.len() implies in_vec(
                                queue@,
                                #[trigger] visited@[i]@,
                            ) || visited@[i]@ == v@ || processed(m, visited@[i]@, visited@) by {
                                if visited@[i]@ != v@ && in_vec(pre_queue, visited@[i]@) {
                                    let q = choose|q: int|
                                        0 <= q < pre_queue.len() && #[trigger] pre_queue[q]@
                                            == visited@[i]@;
                                    assert(q < pre_queue.len() - 1);
                                    assert(queue@[q]@ == visited@[i]@);
                                }
                            }
                        }
                        let icount = inputs.len();
                        let mut j: usize = 0;
                        while j < icount
                            invariant
                                self.wf(),
                                m == self@.nodes,
                                root == self@.root,
                                bound == self.nodes@.len() + 1,
                                inputs.wf(),
                                icount == inputs@.len(),
                                0 <= j <= icount,
                                m.contains_key(v@),
                                m[v@].inputs == Some(inp),
                                inp == deep_map(inputs.as_map()),
                                reachable(m, root, v@),
                                visited@.len() >= 1,
                                visited@[0]@ == root,
                                forall|i1: int, j1: int|
                                    0 <= i1 < j1 < visited@.len() ==> #[trigger] visited@[i1]@
                                        != #[trigger] visited@[j1]@,
                                forall|i: int|
                                    0 <= i < visited@.len() ==> #[trigger] visited@[i]@ == root
                                        || m.contains_key(visited@[i]@),
                                forall|i: int|
                                    0 <= i < visited@.len() ==> reachable(
                                        m,
                                        root,
                                        #[trigger] visited@[i]@,
                                    ),
                                forall|i: int|
                                    0 <= i < queue@.len() ==> in_vec(
                                        visited@,
                                        #[trigger] queue@[i]@,
                                    ),
                                forall|i: int|
                                    0 <= i < visited@.len() ==> in_vec(
                                        queue@,
                                        #[trigger] visited@[i]@,
                                    ) || visited@[i]@ == v@ || processed(
                                        m,
                                        visited@[i]@,
                                        visited@,
                                    ),
                                forall|x: int|
                                    0 <= x < j ==> spec_resolve(
                                        m,
                                        #[trigger] inputs@[x].1@,
                                        RESOLVE_DEPTH as nat,
                                    ) is Some,
                                forall|x: int|
                                    0 <= x < j ==> (m.contains_key(
                                        spec_resolve(
                                            m,
                                            #[trigger] inputs@[x].1@,
                                            RESOLVE_DEPTH as nat,
                                        )->Some_0,
                                    ) ==> in_vec(
                                        visited@,
                                        spec_resolve(
                                            m,
                                            inputs@[x].1@,
                                            RESOLVE_DEPTH as nat,
                                        )->Some_0,
                                    )),
                                visited@.len() <= bound,
                                visited@.len() > pre_visited.len() || (visited@ == pre_visited
                                    && queue@ == pre_queue.drop_last()),
                            decreases icount - j,
                        {
                            proof {
                                inputs.lemma_props();
                                assert(inputs@[j as int].1 == inputs.as_map()[inputs@[j as int].0@]);
                                assert(inp.contains_key(inputs@[j as int].0@));
                                assert(inp[inputs@[j as int].0@] == inputs@[j as int].1@);
                            }
                            let ir = inputs.val_at(j);
                            match self.resolve_at(ir, RESOLVE_DEPTH) {
                                Err(_) => {
                                    proof {
                                        let l = inputs@[j as int].0@;
                                        assert(m[v@].inputs->Some_0[l] == inputs@[j as int].1@);
                                        assert(spec_resolve(
                                            m,
                                            m[v@].inputs->Some_0[l],
                                            RESOLVE_DEPTH as nat,
                                        ) is None);
                                        assert(!res_ok(m, root));
                                    }
                                    return Err(LockError::DanglingInput);
                                },
                                Ok(t) => {
                                    if self.nodes.contains_key(t.as_str()) && !contains_str(
                                        &visited,
                                        t.as_str(),
                                    ) {
                                        let ghost in_visited = visited@;
                                        let ghost in_queue = queue@;
                                        proof {
                                            assert(succ_ok(m, v@, t@));
                                            let c = choose|c: Seq<Seq<char>>|
                                                #[trigger] is_chain(m, root, c) && c.last() == v@;
                                            let c2 = c.push(t@);
                                            assert forall|i: int|
                                                0 <= i < c2.len() - 1 implies succ_ok(
                                                m,
                                                c2[i],
                                                #[trigger] c2[i + 1],
                                            ) by {
                                                if i < c.len() - 1 {
                                                    assert(c2[i] == c[i] && c2[i + 1] == c[i + 1]);
                                                } else {
                                                    assert(c2[i] == c.last() && c2[i + 1] == t@);
                                                }
                                            }
                                            assert(is_chain(m, root, c2));
                                            assert(c2.last() == t@);
                                            assert(reachable(m, root, t@));
                                        }
                                        visited.push(t.clone());
                                        queue.push(t);
                                        proof {
                                            self.nodes.lemma_props();
                                            assert forall|i: int|
                                                0 <= i < visited@.len() implies #[trigger] visited@[i]@
                                                == root || crate::strmap::keys_of(
                                                self.nodes@,
                                            ).to_set().contains(visited@[i]@) by {
                                                if visited@[i]@ != root {
                                                    assert(m.contains_key(visited@[i]@));
                                                    assert(self.nodes.as_map().dom().contains(
                                                        visited@[i]@,
                                                    ));
                                                }
                                            }
                                            lemma_distinct_in_dom_bound(
                                                visited@,
                                                crate::strmap::keys_of(self.nodes@),
                                                root,
                                            );
                                        }
                                        proof {
                                            assert(visited@ == in_visited.push(
                                                visited@[visited@.len() - 1],
                                            ));
                                            assert forall|i: int|
                                                0 <= i < queue@.len() implies in_vec(
                                                visited@,
                                                #[trigger] queue@[i]@,
                                            ) by {
                                                if i < queue@.len() - 1 {
                                                    assert(queue@[i] == in_queue[i]);
                                                    let w = choose|w: int|
                                                        0 <= w < in_visited.len()
                                                            && #[trigger] in_visited[w]@
                                                            == in_queue[i]@;
                                                    assert(visited@[w]@ == queue@[i]@);
                                                } else {
                                                    assert(visited@[visited@.len() - 1]@
                                                        == queue@[i]@);
                                                }
                                            }
                                            assert forall|i: int|
                                                0 <= i < visited@.len() implies in_vec(
                                                queue@,
                                                #[trigger] visited@[i]@,
                                            ) || visited@[i]@ == v@ || processed(
                                                m,
                                                visited@[i]@,
                                                visited@,
                                            ) by {
                                                if i < visited@.len() - 1 {
                                                    assert(visited@[i] == in_visited[i]);
                                                    if in_vec(in_queue, visited@[i]@) {
                                                        let q = choose|q: int|
                                                            0 <= q < in_queue.len()
                                                                && #[trigger] in_queue[q]@
                                                                == visited@[i]@;
                                                        assert(queue@[q]@ == visited@[i]@);
                                                    } else if visited@[i]@ != v@ {
                                                        assert(processed(
                                                            m,
                                                            in_visited[i]@,
                                                            in_visited,
                                                        ));
                                                        assert forall|l: Seq<char>|
                                                            (m.contains_key(visited@[i]@)
                                                                && m[visited@[i]@].inputs is Some)
                                                                && m[visited@[i]@].inputs->Some_0.contains_key(
                                                                l,
                                                            ) implies {
                                                            let r = spec_resolve(
                                                                m,
                                                                #[trigger] m[visited@[i]@].inputs->Some_0[l],
                                                                RESOLVE_DEPTH as nat,
                                                            );
                                                            r is Some && (m.contains_key(r->Some_0)
                                                                ==> in_vec(visited@, r->Some_0))
                                                        } by {
                                                            let r = spec_resolve(
                                                                m,
                                                                m[visited@[i]@].inputs->Some_0[l],
                                                                RESOLVE_DEPTH as nat,
                                                            );
                                                            if r is Some && m.contains_key(
                                                                r->Some_0,
                                                            ) {
                                                                let w = choose|w: int|
                                                                    0 <= w < in_visited.len()
                                                                        && #[trigger] in_visited[w]@
                                                                        == r->Some_0;
                                                                assert(visited@[w]@ == r->Some_0);
                                                            }
                                                        }
                                                    }
                                                } else {
                                                    assert(queue@[queue@.len() - 1]@
                                                        == visited@[i]@);
                                                }
                                            }
                                            assert forall|x: int|
                                                0 <= x < j + 1 implies (m.contains_key(
                                                spec_resolve(
                                                    m,
                                                    #[trigger] inputs@[x].1@,
                                                    RESOLVE_DEPTH as nat,
                                                )->Some_0,
                                            ) ==> in_vec(
                                                visited@,
                                                spec_resolve(
                                                    m,
                                                    inputs@[x].1@,
                                                    RESOLVE_DEPTH as nat,
                                                )->Some_0,
                                            )) by {
                                                if x < j {
                                                    let r0 = spec_resolve(
                                                        m,
                                                        inputs@[x].1@,
                                                        RESOLVE_DEPTH as nat,
                                                    );
                                                    if r0 is Some && m.contains_key(r0->Some_0)
                                                        && in_vec(in_visited, r0->Some_0) {
                                                        let w = choose|w: int|
                                                            0 <= w < in_visited.len()
                                                                && #[trigger] in_visited[w]@
                                                                == r0->Some_0;
                                                        assert(visited@[w]@ == r0->Some_0);
                                                    }
                                                } else {
                                                    assert(visited@[visited@.len() - 1]@ == t@);
                                                }
                                            }
                                        }
                                    } else {
                                        proof {
                                            if self.nodes.as_map().contains_key(t@) {
                                                assert(in_vec(visited@, t@));
                                            }
                                        }
                                    }
                                },
                            }
                            j = j + 1;
                        }
                        proof {
                            // v is now fully processed
                            inputs.lemma_props();
                            assert forall|i: int|
                                0 <= i < visited@.len() implies in_vec(
                                queue@,
                                #[trigger] visited@[i]@,
                            ) || processed(m, visited@[i]@, visited@) by {
                                if visited@[i]@ == v@ {
                                    assert forall|l: Seq<char>|
                                        m[v@].inputs->Some_0.contains_key(l) implies {
                                        let r = spec_resolve(
                                            m,
                                            #[trigger] m[v@].inputs->Some_0[l],
                                            RESOLVE_DEPTH as nat,
                                        );
                                        r is Some && (m.contains_key(r->Some_0) ==> in_vec(
                                            visited@,
                                            r->Some_0,
                                        ))
                                    } by {
                                        let x = choose|x: int|
                                            0 <= x < inputs@.len() && #[trigger] inputs@[x].0@
                                                == l;
                                        assert(inputs.as_map()[l] == inputs@[x].1);
                                        assert(inp[l] == inputs@[x].1@);
                                        assert(spec_resolve(
                                            m,
                                            inputs@[x].1@,
                                            RESOLVE_DEPTH as nat,
                                        ) is Some);
                                    }
                                    assert(processed(m, v@, visited@));
                                }
                            }
                        }
                    },
                }
            }
        }
        proof {
            assert forall|t: Seq<char>|
                (reachable(m, root, t) && (t == root || m.contains_key(t))) implies in_vec(
                visited@,
                t,
            ) by {
                let s = Set::new(|x: Seq<char>| in_vec(visited@, x) || !m.contains_key(x));
                assert(s.contains(root));
                assert forall|v2: Seq<char>, t2: Seq<char>|
                    s.contains(v2) && #[trigger] succ_ok(m, v2, t2) implies s.contains(t2) by {
                    if m.contains_key(t2) && in_vec(visited@, v2) {
                        let l = choose|l: Seq<char>|
                            m[v2].inputs->Some_0.contains_key(l) && spec_resolve(
                                m,
                                #[trigger] m[v2].inputs->Some_0[l],
                                RESOLVE_DEPTH as nat,
                            ) == Some(t2);
                        assert(processed(m, v2, visited@));
                        assert(in_vec(visited@, t2));
                    }
                }
                let c = choose|c: Seq<Seq<char>>| #[trigger] is_chain(m, root, c) && c.last()
                    == t;
                lemma_reach_in_closed(m, root, s, c);
            }
            assert forall|v2: Seq<char>, l: Seq<char>|
                (reachable(m, root, v2) && m.contains_key(v2) && m[v2].inputs is Some
                    && m[v2].inputs->Some_0.contains_key(l)) implies spec_resolve(
                m,
                #[trigger] m[v2].inputs->Some_0[l],
                RESOLVE_DEPTH as nat,
            ) is Some by {
                assert(in_vec(visited@, v2));
                assert(processed(m, v2, visited@));
            }
        }
        Ok(visited)
    }
}


impl LockFile {
    /// Drop every node unreachable from the root. On failure (an
    /// unresolvable reference among the reachable nodes) the lockfile
    /// is left unchanged.
    pub fn trim(&mut self) -> (r: Result<(), LockError>)
        requires
            old(self).wf(),
        ensures
            final(self).wf(),
            final(self)@.root == old(self)@.root,
            final(self)@.version == old(self)@.version,
            match r {
                Ok(_) => {
                    &&& res_ok(old(self)@.nodes, old(self)@.root)
                    &&& final(self)@.nodes == Map::<Seq<char>, LockedRefView>::new(
                        |k: Seq<char>|
                            old(self)@.nodes.contains_key(k) && reachable(
                                old(self)@.nodes,
                                old(self)@.root,
                                k,
                            ),
                        |k: Seq<char>| old(self)@.nodes[k],
                    )
                },
                Err(e) => {
                    &&& !res_ok(old(self)@.nodes, old(self)@.root)
                    &&& final(self)@ == old(self)@
                    &&& e == LockError::DanglingInput
                },
            },
    {
        let ghost m0 = self@.nodes;
        let ghost root = self@.root;
        let keep = match self.closure() {
            Err(e) => {
                proof {
                    assert(final(self)@ =~~= old(self)@);
                }
                return Err(e);
            },
            Ok(v) => v,
        };
        // collect the node names, then drop the unreachable ones
        let n = self.nodes.len();
        let mut names: Vec<String> = Vec::new();
        let mut i: usize = 0;
        while i < n
            invariant
                self == old(self),
                self.wf(),
                n == self.nodes@.len(),
                0 <= i <= n,
                names@.len() == i,
                forall|x: int| 0 <= x < i ==> #[trigger] names@[x]@ == self.nodes@[x].0@,
            decreases n - i,
        {
            names.push(self.nodes.key_at(i).clone());
            i = i + 1;
        }
        proof {
            self.nodes.lemma_props();
            crate::strmap::lemma_sorted_distinct(self.nodes@);
            assert forall|k: Seq<char>|
                deep_map(self.nodes.as_map()).contains_key(k) implies (m0.contains_key(k) && (
            in_vec(keep@, k) || exists|x: int| 0 <= x < n && #[trigger] names@[x]@ == k)) by {
                let x = choose|x: int|
                    0 <= x < self.nodes@.len() && #[trigger] self.nodes@[x].0@ == k;
                assert(names@[x]@ == k);
            }
        }
        let mut i: usize = 0;
        while i < n
            invariant
                old(self).wf(),
                m0 == old(self)@.nodes,
                root == old(self)@.root,
                self.wf(),
                self.root == old(self).root,
                self.version == old(self).version,
                n == names@.len(),
                0 <= i <= n,
                forall|x: int| 0 <= x < n ==> #[trigger] names@[x]@ == old(self).nodes@[x].0@,
                forall|x: int, y: int| 0 <= x < y < n ==> #[trigger] names@[x]@ != #[trigger] names@[y]@,
                forall|t: Seq<char>|
                    in_vec(keep@, t) <==> (reachable(m0, root, t) && (t == root || m0.contains_key(
                        t,
                    ))),
                forall|k: Seq<char>|
                    deep_map(self.nodes.as_map()).contains_key(k) <==> (m0.contains_key(k) && (
                    in_vec(keep@, k) || exists|x: int| i <= x < n && #[trigger] names@[x]@ == k)),
                forall|k: Seq<char>|
                    deep_map(self.nodes.as_map()).contains_key(k) ==> deep_map(
                        self.nodes.as_map(),
                    )[k] == m0[k],
            decreases n - i,
        {
            proof {
                old(self).nodes.lemma_props();
            }
            if !contains_str(&keep, names[i].as_str()) {
                let ghost pre = deep_map(self.nodes.as_map());
                self.nodes.remove(names[i].as_str());
                proof {
                    assert(deep_map(self.nodes.as_map()) =~= pre.remove(names@[i as int]@));
                }
            }
            proof {
                assert forall|k: Seq<char>|
                    deep_map(self.nodes.as_map()).contains_key(k) <==> (m0.contains_key(k) && (
                in_vec(keep@, k) || exists|x: int|
                    i + 1 <= x < n && #[trigger] names@[x]@ == k)) by {
                    if m0.contains_key(k) && (in_vec(keep@, k) || exists|x: int|
                        i + 1 <= x < n && #[trigger] names@[x]@ == k) {
                        if !in_vec(keep@, k) {
                            let x = choose|x: int| i + 1 <= x < n && #[trigger] names@[x]@ == k;
                            assert(names@[x]@ == k && i <= x < n);
                        }
                    }
                    if deep_map(self.nodes.as_map()).contains_key(k) {
                        if !in_vec(keep@, k) {
                            let x = choose|x: int| i <= x < n && #[trigger] names@[x]@ == k;
                            if x == i {
                                assert(!in_vec(keep@, names@[i as int]@));
                                assert(false);
                            }
                        }
                    }
                }
            }
            i = i + 1;
        }
        proof {
            assert(deep_map(self.nodes.as_map()) =~= Map::<Seq<char>, LockedRefView>::new(
                |k: Seq<char>| m0.contains_key(k) && reachable(m0, root, k),
                |k: Seq<char>| m0[k],
            ));
        }
        Ok(())
    }
}

/// Every stored reference is a plain node name.
pub open spec fn direct_only(m: Map<Seq<char>, LockedRefView>) -> bool {
    forall|k: Seq<char>, l: Seq<char>|
        (m.contains_key(k) && m[k].inputs is Some && m[k].inputs->Some_0.contains_key(l))
            ==> (#[trigger] m[k].inputs->Some_0[l]) is Direct
}

/// Plain-name references always resolve, so every reference of every
/// reachable node does.
pub proof fn lemma_direct_res_ok(m: Map<Seq<char>, LockedRefView>, root: Seq<char>)
    requires
        direct_only(m),
    ensures
        res_ok(m, root),
{
    assert forall|v: Seq<char>, l: Seq<char>|
        (reachable(m, root, v) && m.contains_key(v) && m[v].inputs is Some
            && m[v].inputs->Some_0.contains_key(l)) implies spec_resolve(
        m,
        #[trigger] m[v].inputs->Some_0[l],
        RESOLVE_DEPTH as nat,
    ) is Some by {
        assert(m[v].inputs->Some_0[l] is Direct);
    }
}

/// The nodes reachable from the root, with their values kept.
pub open spec fn restrict_reachable(
    m: Map<Seq<char>, LockedRefView>,
    root: Seq<char>,
) -> Map<Seq<char>, LockedRefView> {
    Map::new(
        |k: Seq<char>| m.contains_key(k) && reachable(m, root, k),
        |k: Seq<char>| m[k],
    )
}

/// Trimming is a fixpoint for direct-reference lockfiles: after one
/// trim, the reachable set coincides with the node set, every
/// reference still resolves, and a second trim changes nothing.
pub proof fn lemma_trim_fixpoint(m: Map<Seq<char>, LockedRefView>, root: Seq<char>)
    requires
        m.contains_key(root),
        direct_only(m),
    ensures
        ({
            let m2 = restrict_reachable(m, root);
            &&& forall|t: Seq<char>| reachable(m2, root, t) <==> reachable(m, root, t)
            &&& forall|t: Seq<char>|
                (reachable(m2, root, t) && (t == root || m2.contains_key(t))) <==> (
                m2.contains_key(t) || t == root)
            &&& m2.contains_key(root)
            &&& res_ok(m, root)
            &&& res_ok(m2, root)
            &&& restrict_reachable(m2, root) == m2
        }),
{
    let m2 = restrict_reachable(m, root);
    assert forall|t: Seq<char>| reachable(m2, root, t) implies reachable(m, root, t) by {
        let c = choose|c: Seq<Seq<char>>| #[trigger] is_chain(m2, root, c) && c.last() == t;
        assert forall|i: int| 0 <= i < c.len() - 1 implies succ_ok(m, c[i], #[trigger] c[i + 1]) by {
            assert(succ_ok(m2, c[i], c[i + 1]));
            let l = choose|l: Seq<char>|
                m2[c[i]].inputs->Some_0.contains_key(l) && spec_resolve(
                    m2,
                    #[trigger] m2[c[i]].inputs->Some_0[l],
                    RESOLVE_DEPTH as nat,
                ) == Some(c[i + 1]);
            assert(m2[c[i]] == m[c[i]]);
            assert(m[c[i]].inputs->Some_0[l] is Direct);
        }
        assert(is_chain(m, root, c));
    }
    assert forall|t: Seq<char>| reachable(m, root, t) implies reachable(m2, root, t) by {
        let c = choose|c: Seq<Seq<char>>| #[trigger] is_chain(m, root, c) && c.last() == t;
        assert forall|i: int| 0 <= i < c.len() - 1 implies succ_ok(m2, c[i], #[trigger] c[i + 1]) by {
            assert(succ_ok(m, c[i], c[i + 1]));
            // each chain element is itself reachable via the prefix
            let pre1 = c.take(i + 1);
            assert(is_chain(m, root, pre1) && pre1.last() == c[i]);
            assert(reachable(m, root, c[i]));
            let pre2 = c.take(i + 2);
            assert forall|x: int| 0 <= x < pre2.len() - 1 implies succ_ok(
                m,
                pre2[x],
                #[trigger] pre2[x + 1],
            ) by {
                assert(pre2[x] == c[x] && pre2[x + 1] == c[x + 1]);
            }
            assert(is_chain(m, root, pre2) && pre2.last() == c[i + 1]);
            assert(reachable(m, root, c[i + 1]));
            assert(m2.contains_key(c[i]) && m2.contains_key(c[i + 1]));
            let l = choose|l: Seq<char>|
                m[c[i]].inputs->Some_0.contains_key(l) && spec_resolve(
                    m,
                    #[trigger] m[c[i]].inputs->Some_0[l],
                    RESOLVE_DEPTH as nat,
                ) == Some(c[i + 1]);
            assert(m[c[i]].inputs->Some_0[l] is Direct);
            assert(m2[c[i]] == m[c[i]]);
        }
        assert(is_chain(m2, root, c));
    }
    assert(is_chain(m, root, seq![root]) && seq![root].last() == root);
    assert(reachable(m, root, root));
    assert(m2.contains_key(root));
    assert forall|v: Seq<char>, l: Seq<char>|
        (reachable(m, root, v) && m.contains_key(v) && m[v].inputs is Some
            && m[v].inputs->Some_0.contains_key(l)) implies spec_resolve(
        m,
        #[trigger] m[v].inputs->Some_0[l],
        RESOLVE_DEPTH as nat,
    ) is Some by {
        assert(m[v].inputs->Some_0[l] is Direct);
    }
    assert forall|v: Seq<char>, l: Seq<char>|
        (reachable(m2, root, v) && m2.contains_key(v) && m2[v].inputs is Some
            && m2[v].inputs->Some_0.contains_key(l)) implies spec_resolve(
        m2,
        #[trigger] m2[v].inputs->Some_0[l],
        RESOLVE_DEPTH as nat,
    ) is Some by {
        assert(m2[v] == m[v]);
        assert(m[v].inputs->Some_0[l] is Direct);
    }
    assert(restrict_reachable(m2, root) =~= m2);
}

/// The head a rename rewrites, if the reference has one.
pub open spec fn ref_head_is(r: InputRefView, n: Seq<char>) -> bool {
    match r {
        InputRefView::Direct(x) => x == n,
        InputRefView::Path(p) => p.len() > 0 && p[0] == n,
    }
}

/// Renaming a node to a fresh, unreferenced name and back is the
/// identity on the whole lockfile.
pub proof fn lemma_rename_roundtrip(m: Map<Seq<char>, LockedRefView>, o: Seq<char>, n: Seq<char>)
    requires
        m.contains_key(o),
        !m.contains_key(n),
        o != n,
        forall|k: Seq<char>, l: Seq<char>|
            (m.contains_key(k) && m[k].inputs is Some && m[k].inputs->Some_0.contains_key(l))
                ==> !ref_head_is(#[trigger] m[k].inputs->Some_0[l], n),
    ensures
        ({
            let m1 = rename_all_view(m, o, n).remove(o).insert(n, rename_node_view(m[o], o, n));
            let m2 = rename_all_view(m1, n, o).remove(n).insert(o, rename_node_view(m1[n], n, o));
            m2 == m
        }),
{
    let m1 = rename_all_view(m, o, n).remove(o).insert(n, rename_node_view(m[o], o, n));
    let m2 = rename_all_view(m1, n, o).remove(n).insert(o, rename_node_view(m1[n], n, o));
    assert forall|k: Seq<char>| m2.contains_key(k) implies m.contains_key(k) && m2[k] == m[k] by {
        let src = if k == o {
            o
        } else {
            k
        };
        assert(m.contains_key(src));
        let nv = m[src];
        let nv2 = m2[k];
        match nv.inputs {
            Some(inp) => {
                assert forall|l: Seq<char>| inp.contains_key(l) implies rename_ref(
                    rename_ref(#[trigger] inp[l], o, n),
                    n,
                    o,
                ) == inp[l] by {
                    assert(!ref_head_is(inp[l], n));
                    match inp[l] {
                        InputRefView::Direct(x) => {},
                        InputRefView::Path(p) => {
                            if p.len() > 0 && p[0] == o {
                                assert(p.update(0, n).update(0, o) =~= p);
                            } else if p.len() > 0 {
                                assert(p.update(0, o) != p || true);
                            }
                        },
                    }
                }
                assert(nv2.inputs is Some);
                assert(nv2.inputs->Some_0 =~= inp);
                assert(nv2.flake == nv.flake && nv2.locked == nv.locked && nv2.original
                    == nv.original);
                assert(nv2 == nv);
            },
            None => {
                assert(nv2 == nv);
            },
        }
    }
    assert forall|k: Seq<char>| m.contains_key(k) implies m2.contains_key(k) by {}
    assert(m2 =~= m);
}

} // verus!