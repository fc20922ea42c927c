//! The merge engine: combine many per-project lockfiles into one
//! rooted graph. Private inputs are namespaced with the project label,
//! shared inputs are redirected onto the owning project's node, each
//! project's root becomes the project's node, and everything
//! unreachable from the fresh root is trimmed away.
use vstd::prelude::*;

use crate::cli::FlakeMetadata;
use crate::lockfile::{
    InputRef, InputSpec, LockError, LockFile, LockedRef, LockedRefView, LOCK_VERSION, deep_map,
    direct_only, in_vec, is_chain, lemma_direct_res_ok, lemma_trim_fixpoint, reachable,
    rename_all_view, rename_node_view, rename_ref, restrict_reachable, succ_ok, InputRefView,
    spec_resolve, RESOLVE_DEPTH,
};
use crate::strmap::StrMap;
use crate::strs::str_eq;

verus! {

fn contains_string(v: &Vec<String>, s: &str) -> (r: bool)
    ensures
        r == in_vec(v@, s@),
{
    let n = v.len();
    let mut i: usize = 0;
    while i < n
        invariant
            n == v@.len(),
            0 <= i <= n,
            forall|j: int| 0 <= j < i ==> #[trigger] v@[j]@ != s@,
        decreases n - i,
    {
        if str_eq(v[i].as_str(), s) {
            assert(v@[i as int]@ == s@);
            return true;
        }
        i = i + 1;
    }
    false
}

/// A node whose outgoing references are all plain node names.
pub open spec fn node_direct(n: LockedRefView) -> bool {
    match n.inputs {
        Some(inp) => forall|l: Seq<char>| inp.contains_key(l) ==> (#[trigger] inp[l]) is Direct,
        None => true,
    }
}

/// Every node of the map is direct-referencing.
pub open spec fn map_direct(m: Map<Seq<char>, LockedRefView>) -> bool {
    forall|k: Seq<char>| m.contains_key(k) ==> node_direct(#[trigger] m[k])
}

proof fn lemma_map_direct_only(m: Map<Seq<char>, LockedRefView>)
    requires
        map_direct(m),
    ensures
        direct_only(m),
{
    assert forall|k: Seq<char>, l: Seq<char>|
        (m.contains_key(k) && m[k].inputs is Some && m[k].inputs->Some_0.contains_key(l)) implies (
    #[trigger] m[k].inputs->Some_0[l]) is Direct by {
        assert(node_direct(m[k]));
    }
}

/// Whether a name is one of the project labels of the input map.
pub open spec fn is_merge_label(s: Seq<(String, LockFile)>, l: Seq<char>) -> bool {
    exists|j: int| 0 <= j < s.len() && #[trigger] s[j].0@ == l
}

/// One input lockfile in the shape the merge accepts outright: its
/// root node present, every stored reference a plain node name, and
/// no root edge keyed by a project label naming `root` itself.
pub open spec fn merge_input_ok(s: Seq<(String, LockFile)>, l: crate::lockfile::LockFileView) -> bool {
    &&& l.nodes.contains_key("root"@)
    &&& map_direct(l.nodes)
    &&& match l.nodes["root"@].inputs {
        Some(inp) => forall|lab: Seq<char>|
            inp.contains_key(lab) && is_merge_label(s, lab) ==> (#[trigger] inp[lab])->Direct_0
                != "root"@,
        None => true,
    }
}

/// The inputs on which the merge is guaranteed to succeed.
pub open spec fn merge_inputs_ok(s: Seq<(String, LockFile)>) -> bool {
    forall|i: int| 0 <= i < s.len() ==> merge_input_ok(s, (#[trigger] s[i].1)@)
}

/// Whether a name is one of the project names of a metadata list.
pub open spec fn is_metadata_label(pv: Seq<(String, FlakeMetadata)>, l: Seq<char>) -> bool {
    exists|j: int| 0 <= j < pv.len() && #[trigger] pv[j].0@ == l
}

/// One sub-lockfile in the shape the merge accepts outright; the
/// label set is the metadata list's project names.
pub open spec fn metadata_input_ok(
    pv: Seq<(String, FlakeMetadata)>,
    l: crate::lockfile::LockFileView,
) -> bool {
    &&& l.nodes.contains_key("root"@)
    &&& map_direct(l.nodes)
    &&& match l.nodes["root"@].inputs {
        Some(inp) => forall|lab: Seq<char>|
            inp.contains_key(lab) && is_metadata_label(pv, lab) ==> (#[trigger] inp[lab])->Direct_0
                != "root"@,
        None => true,
    }
}

/// The metadata lists whose sub-lockfiles are guaranteed to merge.
pub open spec fn metadata_inputs_ok(pv: Seq<(String, FlakeMetadata)>) -> bool {
    forall|i: int| 0 <= i < pv.len() ==> metadata_input_ok(pv, (#[trigger] pv[i].1).locks@)
}

/// A node name the merge can produce: the fresh root, a project
/// label, or a project-private name prefixed with its project's label.
pub open spec fn merged_name_ok(s: Seq<(String, LockFile)>, k: Seq<char>) -> bool {
    ||| k == "root"@
    ||| is_merge_label(s, k)
    ||| exists|x: int, orig: Seq<char>|
        0 <= x < s.len() && k == #[trigger] (s[x].0@ + "_"@ + orig)
}

/// Mid-namespacing classification of one project's node names: either
/// already of a final shape, or a pending redirect source, or still
/// waiting in the key worklist at an index at or after `from`.
pub open spec fn staged_name_ok(
    s: Seq<(String, LockFile)>,
    x: int,
    redirects: Seq<(String, String)>,
    pending: Seq<String>,
    from: int,
    k: Seq<char>,
) -> bool {
    ||| k == "root"@
    ||| is_merge_label(s, k)
    ||| (exists|orig: Seq<char>| k == #[trigger] (s[x].0@ + "_"@ + orig))
    ||| (exists|r: int| 0 <= r < redirects.len() && #[trigger] redirects[r].0@ == k)
    ||| (exists|p: int| from <= p < pending.len() && #[trigger] pending[p]@ == k)
}

/// One lockfile-wide rename keeps direct references direct and, when
/// it does not touch the root key, keeps the root node present.
proof fn lemma_rename_step(m: Map<Seq<char>, LockedRefView>, o: Seq<char>, nn: Seq<char>)
    ensures
        ({
            let renamed = rename_all_view(m, o, nn).remove(o).insert(
                nn,
                rename_node_view(m[o], o, nn),
            );
            &&& (map_direct(m) && m.contains_key(o) ==> map_direct(renamed))
            &&& (m.contains_key("root"@) && o != "root"@ ==> renamed.contains_key("root"@))
        }),
{
    let renamed = rename_all_view(m, o, nn).remove(o).insert(nn, rename_node_view(m[o], o, nn));
    if map_direct(m) && m.contains_key(o) {
        assert forall|k: Seq<char>| renamed.contains_key(k) implies node_direct(
            #[trigger] renamed[k],
        ) by {
            let src = if k == nn {
                o
            } else {
                k
            };
            if k == nn || m.contains_key(k) {
                assert(node_direct(m[src]));
                let rn = rename_node_view(m[src], o, nn);
                match m[src].inputs {
                    Some(inp) => {
                        assert forall|l: Seq<char>|
                            rn.inputs->Some_0.contains_key(l) implies (
                        #[trigger] rn.inputs->Some_0[l]) is Direct by {
                            assert(inp[l] is Direct);
                            assert(rn.inputs->Some_0[l] == rename_ref(inp[l], o, nn));
                        }
                    },
                    None => {},
                }
            }
        }
    }
}

impl LockFile {
    /// Combine independent lockfiles into one joint lockfile, keyed by
    /// project label. Fails when an input lockfile has no root node,
    /// when a shared-input reference does not resolve, or when the
    /// combined graph has an unresolvable reference; on the inputs of
    /// `merge_inputs_ok` success is guaranteed.
    pub fn merge(lockfiles: StrMap<LockFile>) -> (r: Result<LockFile, LockError>)
        requires
            lockfiles.wf(),
            forall|i: int| 0 <= i < lockfiles@.len() ==> (#[trigger] lockfiles@[i].1).wf(),
            forall|i: int| 0 <= i < lockfiles@.len() ==> #[trigger] lockfiles@[i].0@ != "root"@,
        ensures
            merge_inputs_ok(lockfiles@) ==> r is Ok,
            match r {
                Ok(out) => {
                    &&& out.wf()
                    &&& out@.root == "root"@
                    &&& out@.version == LOCK_VERSION as int
                    &&& out@.nodes.contains_key("root"@)
                    &&& forall|i: int|
                        0 <= i < lockfiles@.len() ==> out@.nodes.contains_key(
                            #[trigger] lockfiles@[i].0@,
                        )
                    &&& out@.nodes["root"@].locked is None
                    &&& out@.nodes["root"@].original is None
                    &&& out@.nodes["root"@].inputs is Some
                    &&& out@.nodes["root"@].inputs->Some_0.dom() == Set::new(
                        |l: Seq<char>| is_merge_label(lockfiles@, l),
                    )
                    &&& forall|i: int|
                        0 <= i < lockfiles@.len() ==> out@.nodes["root"@].inputs->Some_0[
                            #[trigger] lockfiles@[i].0@] == InputRefView::Direct(lockfiles@[i].0@)
                            && out@.nodes["root"@].inputs->Some_0.contains_key(lockfiles@[i].0@)
                    &&& forall|k: Seq<char>|
                        #[trigger] out@.nodes.contains_key(k) ==> merged_name_ok(lockfiles@, k)
                    &&& (merge_inputs_ok(lockfiles@) ==> map_direct(out@.nodes) && out@.nodes
                        == restrict_reachable(out@.nodes, "root"@))
                },
                Err(e) => e == LockError::MissingRoot || e == LockError::DanglingInput,
            },
    {
        let ghost inputs_ok = merge_inputs_ok(lockfiles@);
        let n = lockfiles.len();
        let mut labels: Vec<String> = Vec::new();
        let mut i: usize = 0;
        while i < n
            invariant
                lockfiles.wf(),
                n == lockfiles@.len(),
                0 <= i <= n,
                labels@.len() == i,
                forall|x: int| 0 <= x < i ==> #[trigger] labels@[x]@ == lockfiles@[x].0@,
            decreases n - i,
        {
            labels.push(lockfiles.key_at(i).clone());
            i = i + 1;
        }
        let mut work = lockfiles;
        let mut new_nodes: StrMap<LockedRef> = StrMap::new();
        let mut idx: usize = 0;
        while idx < n
            invariant
                inputs_ok == merge_inputs_ok(lockfiles@),
                n == work@.len(),
                n == lockfiles@.len(),
                0 <= idx <= n,
                labels@.len() == n,
                work.wf(),
                forall|x: int| 0 <= x < n ==> #[trigger] work@[x].0@ == lockfiles@[x].0@,
                forall|x: int| 0 <= x < n ==> #[trigger] labels@[x]@ == lockfiles@[x].0@,
                forall|x: int| 0 <= x < n ==> (#[trigger] work@[x].1).wf(),
                forall|x: int| idx <= x < n ==> #[trigger] work@[x].1 == lockfiles@[x].1,
                new_nodes.wf(),
                forall|k: Seq<char>|
                    new_nodes.as_map().contains_key(k) ==> (#[trigger] new_nodes.as_map()[k]).wf(),
                forall|x: int|
                    0 <= x < idx ==> new_nodes.as_map().contains_key(#[trigger] labels@[x]@),
                forall|k: Seq<char>|
                    #[trigger] new_nodes.as_map().contains_key(k) ==> merged_name_ok(lockfiles@, k),
                inputs_ok ==> map_direct(deep_map(new_nodes.as_map())),
            decreases n - idx,
        {
            let ghost pre_work = work@;
            let name = labels[idx].clone();
            let lf = work.val_at_mut(idx);
            proof {
                assert(*lf == lockfiles@[idx as int].1);
                if inputs_ok {
                    assert(merge_input_ok(lockfiles@, (lockfiles@[idx as int].1)@));
                }
            }
            let ghost input_view = lf@;
            // collect the redirects for shared inputs before renaming
            let mut redirects: Vec<(String, String)> = Vec::new();
            {
                let rootnode = match lf.nodes.get("root") {
                    Some(nd) => nd,
                    None => {
                        proof {
                            if inputs_ok {
                                assert(input_view.nodes.contains_key("root"@));
                                assert(false);
                            }
                        }
                        return Err(LockError::MissingRoot);
                    },
                };
                proof {
                    assert(rootnode@ == input_view.nodes["root"@]);
                }
                let mut shared: Vec<(String, InputRef)> = Vec::new();
                match &rootnode.inputs {
                    None => {},
                    Some(inputs) => {
                        let ghost rinp = deep_map(inputs.as_map());
                        proof {
                            assert(input_view.nodes["root"@].inputs == Some(rinp));
                        }
                        let icount = inputs.len();
                        let mut j: usize = 0;
                        while j < icount
                            invariant
                                inputs.wf(),
                                icount == inputs@.len(),
                                0 <= j <= icount,
                                rinp == deep_map(inputs.as_map()),
                                n == labels@.len(),
                                n == lockfiles@.len(),
                                forall|x: int|
                                    0 <= x < n ==> #[trigger] labels@[x]@ == lockfiles@[x].0@,
                                forall|x: int|
                                    0 <= x < shared@.len() ==> {
                                        &&& rinp.contains_key(#[trigger] shared@[x].0@)
                                        &&& shared@[x].1@ == rinp[shared@[x].0@]
                                        &&& is_merge_label(lockfiles@, shared@[x].0@)
                                    },
                            decreases icount - j,
                        {
                            proof {
                                inputs.lemma_props();
                                assert(inputs@[j as int].1 == inputs.as_map()[inputs@[j as int].0@]);
                            }
                            if contains_string(&labels, inputs.key_at(j).as_str()) {
                                proof {
                                    let x = choose|x: int|
                                        0 <= x < labels@.len() && #[trigger] labels@[x]@
                                            == inputs@[j as int].0@;
                                    assert(lockfiles@[x].0@ == inputs@[j as int].0@);
                                }
                                shared.push((inputs.key_at(j).clone(), inputs.val_at(j).duplicate()));
                            }
                            j = j + 1;
                        }
                    },
                }
                let scount = shared.len();
                let mut j: usize = 0;
                while j < scount
                    invariant
                        inputs_ok == merge_inputs_ok(lockfiles@),
                        n == lockfiles@.len(),
                        lf.wf(),
                        lf@ == input_view,
                        scount == shared@.len(),
                        0 <= j <= scount,
                        inputs_ok ==> merge_input_ok(lockfiles@, input_view),
                        forall|x: int|
                            0 <= x < scount ==> {
                                &&& input_view.nodes["root"@].inputs is Some
                                &&& input_view.nodes["root"@].inputs->Some_0.contains_key(
                                    #[trigger] shared@[x].0@,
                                )
                                &&& shared@[x].1@ == input_view.nodes["root"@].inputs->Some_0[
                                    shared@[x].0@]
                                &&& is_merge_label(lockfiles@, shared@[x].0@)
                            },
                        forall|x: int|
                            0 <= x < redirects@.len() ==> (inputs_ok
                                ==> #[trigger] redirects@[x].0@ != "root"@),
                        forall|x: int|
                            0 <= x < redirects@.len() ==> is_merge_label(
                                lockfiles@,
                                #[trigger] redirects@[x].1@,
                            ),
                    decreases scount - j,
                {
                    match lf.resolve_input(&shared[j].1) {
                        Ok(u) => {
                            proof {
                                if inputs_ok {
                                    let rn = input_view.nodes["root"@];
                                    assert(input_view.nodes.contains_key("root"@));
                                    assert(node_direct(rn));
                                    let key = shared@[j as int].0@;
                                    assert(rn.inputs->Some_0.contains_key(key));
                                    assert(shared@[j as int].1@ == rn.inputs->Some_0[key]);
                                    assert(rn.inputs->Some_0[key] is Direct);
                                    assert(rn.inputs->Some_0[key]->Direct_0 != "root"@);
                                    assert(spec_resolve(
                                        input_view.nodes,
                                        shared@[j as int].1@,
                                        RESOLVE_DEPTH as nat,
                                    ) == Some(rn.inputs->Some_0[key]->Direct_0));
                                    assert(u@ != "root"@);
                                }
                            }
                            let ghost pre_red = redirects@;
                            redirects.push((u, shared[j].0.clone()));
                            proof {
                                assert forall|x: int|
                                    0 <= x < redirects@.len() implies (inputs_ok
                                    ==> #[trigger] redirects@[x].0@ != "root"@) && is_merge_label(
                                    lockfiles@,
                                    redirects@[x].1@,
                                ) by {
                                    if x < pre_red.len() {
                                        assert(redirects@[x] == pre_red[x]);
                                    } else {
                                        assert(redirects@[x].0 == u);
                                        assert(redirects@[x].1@ == shared@[j as int].0@);
                                    }
                                }
                            }
                        },
                        Err(_) => {
                            proof {
                                if inputs_ok {
                                    let rn = input_view.nodes["root"@];
                                    assert(input_view.nodes.contains_key("root"@));
                                    assert(node_direct(rn));
                                    let key = shared@[j as int].0@;
                                    assert(rn.inputs->Some_0.contains_key(key));
                                    assert(shared@[j as int].1@ == rn.inputs->Some_0[key]);
                                    assert(shared@[j as int].1@ is Direct);
                                    assert(false);
                                }
                            }
                            return Err(LockError::DanglingInput);
                        },
                    }
                    j = j + 1;
                }
            }
            // namespace the private inputs
            let mut node_keys: Vec<String> = Vec::new();
            {
                let kcount = lf.nodes.len();
                let mut j: usize = 0;
                while j < kcount
                    invariant
                        lf.wf(),
                        lf@ == input_view,
                        kcount == lf.nodes@.len(),
                        0 <= j <= kcount,
                        node_keys@.len() == j,
                        forall|x: int| 0 <= x < j ==> #[trigger] node_keys@[x]@ == lf.nodes@[x].0@,
                    decreases kcount - j,
                {
                    node_keys.push(lf.nodes.key_at(j).clone());
                    j = j + 1;
                }
                proof {
                    lf.nodes.lemma_props();
                    assert forall|k: Seq<char>|
                        deep_map(lf.nodes.as_map()).contains_key(k) implies staged_name_ok(
                        lockfiles@,
                        idx as int,
                        redirects@,
                        node_keys@,
                        0,
                        k,
                    ) by {
                        let x = choose|x: int|
                            0 <= x < lf.nodes@.len() && #[trigger] lf.nodes@[x].0@ == k;
                        assert(node_keys@[x]@ == k);
                    }
                }
            }
            let kcount = node_keys.len();
            let mut j: usize = 0;
            while j < kcount
                invariant
                    inputs_ok == merge_inputs_ok(lockfiles@),
                    lf.wf(),
                    kcount == node_keys@.len(),
                    0 <= j <= kcount,
                    n == lockfiles@.len(),
                    n == labels@.len(),
                    forall|x: int| 0 <= x < n ==> #[trigger] labels@[x]@ == lockfiles@[x].0@,
                    0 <= idx < n,
                    name@ == lockfiles@[idx as int].0@,
                    inputs_ok ==> deep_map(lf.nodes.as_map()).contains_key("root"@) && map_direct(
                        deep_map(lf.nodes.as_map()),
                    ),
                    forall|k: Seq<char>|
                        #[trigger] deep_map(lf.nodes.as_map()).contains_key(k) ==> staged_name_ok(
                            lockfiles@,
                            idx as int,
                            redirects@,
                            node_keys@,
                            j as int,
                            k,
                        ),
                decreases kcount - j,
            {
                let ghost pre = deep_map(lf.nodes.as_map());
                let k = &node_keys[j];
                let mut is_redirect = false;
                let rcount = redirects.len();
                let mut x: usize = 0;
                while x < rcount
                    invariant
                        rcount == redirects@.len(),
                        0 <= x <= rcount,
                        is_redirect ==> exists|r: int|
                            0 <= r < rcount && #[trigger] redirects@[r].0@ == node_keys@[j as int]@,
                        k == &node_keys@[j as int],
                        !is_redirect ==> forall|r: int|
                            0 <= r < x ==> #[trigger] redirects@[r].0@ != node_keys@[j as int]@,
                    decreases rcount - x,
                {
                    if str_eq(redirects[x].0.as_str(), k.as_str()) {
                        is_redirect = true;
                        proof {
                            assert(redirects@[x as int].0@ == node_keys@[j as int]@);
                        }
                    }
                    x = x + 1;
                }
                if !str_eq(k.as_str(), "root") && !contains_string(&labels, k.as_str())
                    && !is_redirect {
                    let mut nn = name.clone();
                    nn.append("_");
                    nn.append(k.as_str());
                    proof {
                        assert(nn@ == lockfiles@[idx as int].0@ + "_"@ + node_keys@[j as int]@);
                    }
                    lf.rename_input(k.as_str(), nn.as_str());
                    proof {
                        if inputs_ok && pre.contains_key(k@) {
                            lemma_rename_step(pre, k@, nn@);
                        }
                        assert forall|k2: Seq<char>|
                            #[trigger] deep_map(lf.nodes.as_map()).contains_key(k2) implies staged_name_ok(
                            lockfiles@,
                            idx as int,
                            redirects@,
                            node_keys@,
                            j + 1,
                            k2,
                        ) by {
                            if k2 == nn@ {
                                assert(k2 == lockfiles@[idx as int].0@ + "_"@
                                    + node_keys@[j as int]@);
                            } else {
                                assert(pre.contains_key(k2));
                                assert(staged_name_ok(
                                    lockfiles@,
                                    idx as int,
                                    redirects@,
                                    node_keys@,
                                    j as int,
                                    k2,
                                ));
                                if !(k2 == "root"@ || is_merge_label(lockfiles@, k2) || (exists|
                                    orig: Seq<char>,
                                |
                                    k2 == #[trigger] (lockfiles@[idx as int].0@ + "_"@ + orig))
                                    || (exists|r: int|
                                    0 <= r < redirects@.len() && #[trigger] redirects@[r].0@
                                        == k2)) {
                                    let p = choose|p: int|
                                        j <= p < node_keys@.len() && #[trigger] node_keys@[p]@
                                            == k2;
                                    assert(p != j);
                                    assert(j + 1 <= p < node_keys@.len());
                                }
                            }
                        }
                    }
                } else {
                    proof {
                        assert forall|k2: Seq<char>|
                            #[trigger] deep_map(lf.nodes.as_map()).contains_key(k2) implies staged_name_ok(
                            lockfiles@,
                            idx as int,
                            redirects@,
                            node_keys@,
                            j + 1,
                            k2,
                        ) by {
                            assert(staged_name_ok(
                                lockfiles@,
                                idx as int,
                                redirects@,
                                node_keys@,
                                j as int,
                                k2,
                            ));
                            if k2 == node_keys@[j as int]@ {
                                if k2 != "root"@ && !is_merge_label(lockfiles@, k2) {
                                    // skipped as a redirect source
                                    assert(in_vec(labels@, k2) ==> is_merge_label(lockfiles@, k2));
                                    assert(exists|r: int|
                                        0 <= r < redirects@.len() && #[trigger] redirects@[r].0@
                                            == k2);
                                }
                            } else {
                                if !(k2 == "root"@ || is_merge_label(lockfiles@, k2) || (exists|
                                    orig: Seq<char>,
                                |
                                    k2 == #[trigger] (lockfiles@[idx as int].0@ + "_"@ + orig))
                                    || (exists|r: int|
                                    0 <= r < redirects@.len() && #[trigger] redirects@[r].0@
                                        == k2)) {
                                    let p = choose|p: int|
                                        j <= p < node_keys@.len() && #[trigger] node_keys@[p]@
                                            == k2;
                                    assert(p != j);
                                }
                            }
                        }
                    }
                }
                j = j + 1;
            }
            // redirect shared inputs onto the owning project's label
            let rcount = redirects.len();
            let mut j: usize = 0;
            while j < rcount
                invariant
                    inputs_ok == merge_inputs_ok(lockfiles@),
                    lf.wf(),
                    rcount == redirects@.len(),
                    0 <= j <= rcount,
                    n == lockfiles@.len(),
                    0 <= idx < n,
                    forall|x: int|
                        0 <= x < rcount ==> (inputs_ok ==> #[trigger] redirects@[x].0@
                            != "root"@),
                    forall|x: int|
                        0 <= x < rcount ==> is_merge_label(lockfiles@, #[trigger] redirects@[x].1@),
                    inputs_ok ==> deep_map(lf.nodes.as_map()).contains_key("root"@) && map_direct(
                        deep_map(lf.nodes.as_map()),
                    ),
                    forall|k: Seq<char>|
                        #[trigger] deep_map(lf.nodes.as_map()).contains_key(k) ==> (k == "root"@
                            || is_merge_label(lockfiles@, k) || (exists|orig: Seq<char>|
                            k == #[trigger] (lockfiles@[idx as int].0@ + "_"@ + orig)) || (exists|
                            r: int,
                        |
                            j <= r < rcount && #[trigger] redirects@[r].0@ == k)),
                decreases rcount - j,
            {
                let ghost pre = deep_map(lf.nodes.as_map());
                lf.rename_input(redirects[j].0.as_str(), redirects[j].1.as_str());
                proof {
                    if inputs_ok && pre.contains_key(redirects@[j as int].0@) {
                        lemma_rename_step(pre, redirects@[j as int].0@, redirects@[j as int].1@);
                    }
                    assert forall|k: Seq<char>|
                        #[trigger] deep_map(lf.nodes.as_map()).contains_key(k) implies (k
                        == "root"@ || is_merge_label(lockfiles@, k) || (exists|orig: Seq<char>|
                        k == #[trigger] (lockfiles@[idx as int].0@ + "_"@ + orig)) || (exists|
                        r: int,
                    |
                        j + 1 <= r < rcount && #[trigger] redirects@[r].0@ == k)) by {
                        if k != redirects@[j as int].1@ {
                            assert(pre.contains_key(k));
                            if !(k == "root"@ || is_merge_label(lockfiles@, k) || (exists|
                                orig: Seq<char>,
                            |
                                k == #[trigger] (lockfiles@[idx as int].0@ + "_"@ + orig))) {
                                let r = choose|r: int|
                                    j <= r < rcount && #[trigger] redirects@[r].0@ == k;
                                assert(r != j);
                            }
                        }
                    }
                }
                j = j + 1;
            }
            // the project's root becomes the project node
            if !lf.nodes.contains_key("root") {
                proof {
                    if inputs_ok {
                        assert(false);
                    }
                }
                return Err(LockError::MissingRoot);
            }
            let ghost pre = deep_map(lf.nodes.as_map());
            lf.rename_input("root", name.as_str());
            proof {
                assert(deep_map(lf.nodes.as_map()).contains_key(name@));
                if inputs_ok {
                    lemma_rename_step(pre, "root"@, name@);
                }
                assert forall|k: Seq<char>|
                    #[trigger] deep_map(lf.nodes.as_map()).contains_key(k) implies merged_name_ok(
                    lockfiles@,
                    k,
                ) by {
                    if k == name@ {
                        assert(lockfiles@[idx as int].0@ == k);
                    } else {
                        assert(pre.contains_key(k));
                        if !(k == "root"@ || is_merge_label(lockfiles@, k)) {
                            let orig = choose|orig: Seq<char>|
                                k == #[trigger] (lockfiles@[idx as int].0@ + "_"@ + orig);
                            assert(k == lockfiles@[idx as int].0@ + "_"@ + orig);
                        }
                    }
                }
            }
            // move every node into the union
            let ghost pre_union = new_nodes.as_map();
            let ghost pre_lf = deep_map(lf.nodes.as_map());
            while lf.nodes.len() > 0
                invariant
                    inputs_ok == merge_inputs_ok(lockfiles@),
                    lf.wf(),
                    new_nodes.wf(),
                    forall|k: Seq<char>|
                        new_nodes.as_map().contains_key(k) ==> (
                        #[trigger] new_nodes.as_map()[k]).wf(),
                    forall|k: Seq<char>|
                        #[trigger] pre_union.contains_key(k) ==> new_nodes.as_map().contains_key(
                            k,
                        ),
                    forall|k: Seq<char>|
                        #[trigger] pre_lf.contains_key(k) ==> (deep_map(
                            lf.nodes.as_map(),
                        ).contains_key(k) || new_nodes.as_map().contains_key(k)),
                    inputs_ok ==> map_direct(deep_map(lf.nodes.as_map())) && map_direct(
                        deep_map(new_nodes.as_map()),
                    ),
                    forall|k: Seq<char>|
                        #[trigger] deep_map(lf.nodes.as_map()).contains_key(k) ==> merged_name_ok(
                            lockfiles@,
                            k,
                        ),
                    forall|k: Seq<char>|
                        #[trigger] new_nodes.as_map().contains_key(k) ==> merged_name_ok(
                            lockfiles@,
                            k,
                        ),
                decreases lf.nodes@.len(),
            {
                let k = lf.nodes.key_at(0).clone();
                proof {
                    lf.nodes.lemma_props();
                    assert(lf.nodes.as_map().contains_key(k@));
                }
                let ghost pre_lfm = lf.nodes.as_map();
                let ghost pre_nn = new_nodes.as_map();
                match lf.nodes.remove(k.as_str()) {
                    Some(v) => {
                        proof {
                            assert(v.wf());
                            if inputs_ok {
                                assert(v == pre_lfm[k@]);
                                assert(node_direct(deep_map(pre_lfm)[k@]));
                                assert(node_direct(v@));
                                assert forall|k2: Seq<char>|
                                    deep_map(lf.nodes.as_map()).contains_key(k2) implies
                                    node_direct(#[trigger] deep_map(lf.nodes.as_map())[k2]) by {
                                    assert(lf.nodes.as_map()[k2] == pre_lfm[k2]);
                                    assert(node_direct(deep_map(pre_lfm)[k2]));
                                }
                            }
                        }
                        new_nodes.insert(k, v);
                        proof {
                            if inputs_ok {
                                assert forall|k2: Seq<char>|
                                    deep_map(new_nodes.as_map()).contains_key(k2) implies
                                    node_direct(#[trigger] deep_map(new_nodes.as_map())[k2]) by {
                                    if k2 == k@ {
                                        assert(new_nodes.as_map()[k2] == v);
                                    } else {
                                        assert(new_nodes.as_map()[k2] == pre_nn[k2]);
                                        assert(node_direct(deep_map(pre_nn)[k2]));
                                    }
                                }
                            }
                            assert forall|k2: Seq<char>|
                                #[trigger] deep_map(lf.nodes.as_map()).contains_key(k2) implies
                                merged_name_ok(lockfiles@, k2) by {
                                assert(deep_map(pre_lfm).contains_key(k2));
                            }
                            assert forall|k2: Seq<char>|
                                #[trigger] new_nodes.as_map().contains_key(k2) implies
                                merged_name_ok(lockfiles@, k2) by {
                                if k2 == k@ {
                                    assert(deep_map(pre_lfm).contains_key(k2));
                                } else {
                                    assert(pre_nn.contains_key(k2));
                                }
                            }
                        }
                    },
                    None => {
                        proof {
                            assert(false);
                        }
                    },
                }
            }
            proof {
                assert(new_nodes.as_map().contains_key(name@));
                assert(labels@[idx as int]@ == name@);
                assert(work@ == pre_work.update(
                    idx as int,
                    (pre_work[idx as int].0, work@[idx as int].1),
                ));
                assert forall|a: int, b: int|
                    0 <= a < b < work@.len() implies crate::strs::lex_lt(
                    #[trigger] work@[a].0@,
                    #[trigger] work@[b].0@,
                ) by {
                    assert(work@[a].0 == pre_work[a].0);
                    assert(work@[b].0 == pre_work[b].0);
                }
                assert(work.wf());
                assert forall|x: int| 0 <= x < n implies #[trigger] work@[x].0@
                    == lockfiles@[x].0@ by {
                    assert(work@[x].0 == pre_work[x].0);
                }
            }
            idx = idx + 1;
        }
        // synthesize the fresh root
        let mut root_inputs: StrMap<InputRef> = StrMap::new();
        let mut i: usize = 0;
        while i < n
            invariant
                n == labels@.len(),
                n == lockfiles@.len(),
                forall|x: int| 0 <= x < n ==> #[trigger] labels@[x]@ == lockfiles@[x].0@,
                0 <= i <= n,
                root_inputs.wf(),
                forall|x: int|
                    0 <= x < i ==> root_inputs.as_map().contains_key(#[trigger] labels@[x]@)
                        && root_inputs.as_map()[labels@[x]@]@ == InputRefView::Direct(labels@[x]@),
                forall|k: Seq<char>|
                    #[trigger] root_inputs.as_map().contains_key(k) ==> exists|x: int|
                        0 <= x < i && #[trigger] labels@[x]@ == k,
            decreases n - i,
        {
            let ghost pre = root_inputs.as_map();
            root_inputs.insert(labels[i].clone(), InputRef::Direct(labels[i].clone()));
            proof {
                assert forall|k: Seq<char>|
                    #[trigger] root_inputs.as_map().contains_key(k) implies exists|x: int|
                    0 <= x < i + 1 && #[trigger] labels@[x]@ == k by {
                    if k != labels@[i as int]@ {
                        assert(pre.contains_key(k));
                    } else {
                        assert(labels@[i as int]@ == k);
                    }
                }
            }
            i = i + 1;
        }
        let rootref = LockedRef { flake: None, locked: None, original: None, inputs: Some(
            root_inputs,
        ) };
        let ghost rootref_v = rootref@;
        proof {
            assert forall|l: Seq<char>|
                rootref_v.inputs->Some_0.contains_key(l) implies (
            #[trigger] rootref_v.inputs->Some_0[l]) is Direct by {
                let x = choose|x: int| 0 <= x < n && #[trigger] labels@[x]@ == l;
                assert(rootref_v.inputs->Some_0[l] == InputRefView::Direct(labels@[x]@));
            }
            assert(node_direct(rootref_v));
            assert forall|l: Seq<char>|
                rootref_v.inputs->Some_0.dom().contains(l) implies is_merge_label(
                lockfiles@,
                l,
            ) by {
                let x = choose|x: int| 0 <= x < n && #[trigger] labels@[x]@ == l;
                assert(lockfiles@[x].0@ == l);
            }
            assert forall|l: Seq<char>|
                is_merge_label(lockfiles@, l) implies rootref_v.inputs->Some_0.dom().contains(
                l,
            ) by {
                let x = choose|x: int| 0 <= x < lockfiles@.len() && #[trigger] lockfiles@[x].0@ == l;
                assert(labels@[x]@ == l);
                assert(root_inputs.as_map().contains_key(labels@[x]@));
            }
            assert(rootref_v.inputs->Some_0.dom() =~= Set::new(
                |l: Seq<char>| is_merge_label(lockfiles@, l),
            ));
        }
        let ghost pre_insert = new_nodes.as_map();
        new_nodes.insert(String::from_str("root"), rootref);
        let mut out = LockFile {
            nodes: new_nodes,
            root: String::from_str("root"),
            version: LOCK_VERSION,
        };
        proof {
            assert forall|k: Seq<char>| out.nodes.as_map().contains_key(k) implies (
            #[trigger] out.nodes.as_map()[k]).wf() by {}
            assert(out.wf());
        }
        let ghost pre_trim = out@.nodes;
        proof {
            if inputs_ok {
                assert forall|k: Seq<char>| pre_trim.contains_key(k) implies node_direct(
                    #[trigger] pre_trim[k],
                ) by {
                    if k == "root"@ {
                        assert(pre_trim[k] == rootref_v);
                    } else {
                        assert(out.nodes.as_map()[k] == pre_insert[k]);
                        assert(node_direct(deep_map(pre_insert)[k]));
                    }
                }
                assert(map_direct(pre_trim));
            }
            // the fresh root and every project label are reachable
            assert(pre_trim.contains_key("root"@));
            assert(pre_trim["root"@] == rootref_v);
            assert(is_chain(pre_trim, "root"@, seq!["root"@]));
            assert(seq!["root"@].last() == "root"@);
            assert(reachable(pre_trim, "root"@, "root"@));
            assert forall|x: int| 0 <= x < n implies reachable(
                pre_trim,
                "root"@,
                #[trigger] labels@[x]@,
            ) && pre_trim.contains_key(labels@[x]@) by {
                assert(rootref_v.inputs->Some_0.contains_key(labels@[x]@));
                assert(rootref_v.inputs->Some_0[labels@[x]@] == InputRefView::Direct(
                    labels@[x]@,
                ));
                assert(spec_resolve(
                    pre_trim,
                    InputRefView::Direct(labels@[x]@),
                    RESOLVE_DEPTH as nat,
                ) == Some(labels@[x]@));
                assert(labels@[x]@ != "root"@);
                assert(pre_trim.contains_key(labels@[x]@));
                assert(succ_ok(pre_trim, "root"@, labels@[x]@));
                let c = seq!["root"@, labels@[x]@];
                assert forall|y: int| 0 <= y < c.len() - 1 implies succ_ok(
                    pre_trim,
                    c[y],
                    #[trigger] c[y + 1],
                ) by {
                    assert(c[0] == "root"@ && c[1] == labels@[x]@);
                }
                assert(is_chain(pre_trim, "root"@, c));
                assert(c.last() == labels@[x]@);
            }
        }
        match out.trim() {
            Ok(_) => {
                proof {
                    assert(out@.nodes.contains_key("root"@));
                    assert(out@.nodes["root"@] == rootref_v);
                    assert forall|x: int| 0 <= x < n implies out@.nodes.contains_key(
                        #[trigger] lockfiles@[x].0@,
                    ) by {
                        assert(labels@[x]@ == lockfiles@[x].0@);
                    }
                    assert forall|x: int| 0 <= x < n implies out@.nodes["root"@].inputs->Some_0.contains_key(
                        #[trigger] lockfiles@[x].0@,
                    ) && out@.nodes["root"@].inputs->Some_0[lockfiles@[x].0@]
                        == InputRefView::Direct(lockfiles@[x].0@) by {
                        assert(labels@[x]@ == lockfiles@[x].0@);
                        assert(rootref_v.inputs->Some_0.contains_key(labels@[x]@));
                        assert(rootref_v.inputs->Some_0[labels@[x]@] == InputRefView::Direct(
                            labels@[x]@,
                        ));
                    }
                    assert forall|k: Seq<char>| #[trigger] out@.nodes.contains_key(k) implies
                        merged_name_ok(lockfiles@, k) by {
                        assert(pre_trim.contains_key(k));
                        if k != "root"@ {
                            assert(pre_insert.contains_key(k));
                        }
                    }
                    if inputs_ok {
                        assert(out@.nodes == restrict_reachable(pre_trim, "root"@));
                        assert forall|k: Seq<char>| out@.nodes.contains_key(k) implies node_direct(
                            #[trigger] out@.nodes[k],
                        ) by {
                            assert(out@.nodes[k] == pre_trim[k]);
                        }
                        assert(map_direct(out@.nodes));
                        lemma_map_direct_only(pre_trim);
                        lemma_trim_fixpoint(pre_trim, "root"@);
                        assert(restrict_reachable(restrict_reachable(pre_trim, "root"@), "root"@)
                            == restrict_reachable(pre_trim, "root"@));
                    }
                }
                Ok(out)
            },
            Err(e) => {
                proof {
                    if inputs_ok {
                        lemma_map_direct_only(pre_trim);
                        lemma_direct_res_ok(pre_trim, "root"@);
                        assert(false);
                    }
                }
                Err(e)
            },
        }
    }

    /// Merge the sub-lockfiles of many metadata records and pin each
    /// project label with the metadata's `original` and `locked`.
    pub fn from_metadata(projects: Vec<(String, FlakeMetadata)>) -> (r: Result<
        LockFile,
        LockError,
    >)
        requires
            forall|i: int, j: int|
                0 <= i < j < projects@.len() ==> #[trigger] projects@[i].0@ != #[trigger] projects@[j].0@,
            forall|i: int| 0 <= i < projects@.len() ==> #[trigger] projects@[i].0@ != "root"@,
            forall|i: int| 0 <= i < projects@.len() ==> (#[trigger] projects@[i].1).locks.wf(),
        ensures
            metadata_inputs_ok(projects@) ==> r is Ok,
            match r {
                Ok(out) => {
                    &&& out.wf()
                    &&& out@.root == "root"@
                    &&& out@.nodes.contains_key("root"@)
                    &&& forall|i: int|
                        0 <= i < projects@.len() ==> out@.nodes.contains_key(
                            #[trigger] projects@[i].0@,
                        )
                    &&& forall|i: int|
                        0 <= i < projects@.len() ==> out@.nodes[#[trigger] projects@[i].0@].locked
                            == Some(projects@[i].1.locked@) && out@.nodes[projects@[i].0@].original
                            == Some(projects@[i].1.original@)
                },
                Err(e) => e == LockError::MissingRoot || e == LockError::DanglingInput,
            },
    {
        let ghost pv = projects@;
        let mut projects = projects;
        let mut lockfiles: StrMap<LockFile> = StrMap::new();
        let mut pins: Vec<(String, InputSpec, InputSpec)> = Vec::new();
        while projects.len() > 0
            invariant
                pins@.len() + projects@.len() == pv.len(),
                forall|x: int|
                    0 <= x < projects@.len() ==> #[trigger] projects@[x] == pv[pins@.len() + x],
                forall|x: int|
                    0 <= x < pins@.len() ==> #[trigger] pins@[x].0@ == pv[x].0@ && pins@[x].1@
                        == pv[x].1.original@ && pins@[x].2@ == pv[x].1.locked@,
                forall|i: int, j: int| 0 <= i < j < pv.len() ==> #[trigger] pv[i].0@ != #[trigger] pv[j].0@,
                forall|i: int| 0 <= i < pv.len() ==> #[trigger] pv[i].0@ != "root"@,
                forall|i: int| 0 <= i < pv.len() ==> (#[trigger] pv[i].1).locks.wf(),
                lockfiles.wf(),
                forall|k: Seq<char>|
                    #[trigger] lockfiles.as_map().contains_key(k) ==> lockfiles.as_map()[k].wf()
                        && k != "root"@,
                forall|k: Seq<char>|
                    #[trigger] lockfiles.as_map().contains_key(k) ==> exists|x: int|
                        0 <= x < pins@.len() && #[trigger] pins@[x].0@ == k
                            && lockfiles.as_map()[k] == pv[x].1.locks,
                forall|x: int|
                    0 <= x < pins@.len() ==> lockfiles.as_map().contains_key(
                        #[trigger] pins@[x].0@,
                    ),
            decreases projects@.len(),
        {
            let ghost done = pins@.len();
            let ghost premap = lockfiles.as_map();
            let ghost prepins = pins@;
            let (name, meta) = projects.remove(0);
            proof {
                assert((name, meta) == pv[done as int]);
            }
            let FlakeMetadata { original, locked, locks, .. } = meta;
            pins.push((name.clone(), original, locked));
            lockfiles.insert(name, locks);
            proof {
                assert(locks.wf());
                assert(name@ != "root"@);
                assert forall|k: Seq<char>|
                    #[trigger] lockfiles.as_map().contains_key(k) implies exists|x: int|
                    0 <= x < pins@.len() && #[trigger] pins@[x].0@ == k && lockfiles.as_map()[k]
                        == pv[x].1.locks by {
                    if k == name@ {
                        assert(pins@[done as int].0@ == k);
                        assert(lockfiles.as_map()[k] == pv[done as int].1.locks);
                    } else {
                        assert(premap.contains_key(k));
                        let x = choose|x: int|
                            0 <= x < done && #[trigger] prepins[x].0@ == k && premap[k]
                                == pv[x].1.locks;
                        assert(pins@[x] == prepins[x]);
                        assert(pins@[x].0@ == k);
                        assert(lockfiles.as_map()[k] == premap[k]);
                    }
                }
                assert forall|x: int| 0 <= x < pins@.len() implies lockfiles.as_map().contains_key(
                    #[trigger] pins@[x].0@,
                ) by {
                    if x < done {
                        assert(pins@[x] == prepins[x]);
                        assert(premap.contains_key(prepins[x].0@));
                    } else {
                        assert(pins@[x].0@ == name@);
                    }
                }
            }
        }
        proof {
            assert(pins@.len() == pv.len());
            lockfiles.lemma_props();
            assert forall|i: int| 0 <= i < lockfiles@.len() implies (
            #[trigger] lockfiles@[i].1).wf() && lockfiles@[i].0@ != "root"@ by {
                assert(lockfiles.as_map().contains_key(lockfiles@[i].0@));
                assert(lockfiles.as_map()[lockfiles@[i].0@] == lockfiles@[i].1);
            }
        }
        let ghost lfm = lockfiles.as_map();
        let ghost lfs = lockfiles@;
        proof {
            if metadata_inputs_ok(pv) {
                lockfiles.lemma_props();
                assert forall|lab: Seq<char>|
                    is_merge_label(lfs, lab) implies is_metadata_label(pv, lab) by {
                    let j = choose|j: int| 0 <= j < lfs.len() && #[trigger] lfs[j].0@ == lab;
                    assert(lfm.contains_key(lfs[j].0@));
                    let x = choose|x: int|
                        0 <= x < pins@.len() && #[trigger] pins@[x].0@ == lab && lfm[lab]
                            == pv[x].1.locks;
                    assert(pv[x].0@ == lab);
                }
                assert forall|i: int| 0 <= i < lfs.len() implies merge_input_ok(
                    lfs,
                    (#[trigger] lfs[i].1)@,
                ) by {
                    assert(lfm.contains_key(lfs[i].0@));
                    assert(lfs[i].1 == lfm[lfs[i].0@]);
                    let x = choose|x: int|
                        0 <= x < pins@.len() && #[trigger] pins@[x].0@ == lfs[i].0@ && lfm[lfs[i].0@]
                            == pv[x].1.locks;
                    assert(metadata_input_ok(pv, (pv[x].1).locks@));
                    let lv = (pv[x].1).locks@;
                    match lv.nodes["root"@].inputs {
                        Some(inp) => {
                            assert forall|lab: Seq<char>|
                                inp.contains_key(lab) && is_merge_label(lfs, lab) implies (
                            #[trigger] inp[lab])->Direct_0 != "root"@ by {
                                assert(is_metadata_label(pv, lab));
                            }
                        },
                        None => {},
                    }
                }
                assert(merge_inputs_ok(lfs));
            }
        }
        let mut out = match LockFile::merge(lockfiles) {
            Ok(o) => o,
            Err(e) => {
                proof {
                    if metadata_inputs_ok(pv) {
                        assert(false);
                    }
                }
                return Err(e);
            },
        };
        proof {
            assert forall|x: int| 0 <= x < pins@.len() implies out@.nodes.contains_key(
                #[trigger] pins@[x].0@,
            ) by {
                let i = choose|i: int| 0 <= i < lfs.len() && #[trigger] lfs[i].0@ == pins@[x].0@;
                assert(out@.nodes.contains_key(lfs[i].0@));
            }
        }
        let pcount = pins.len();
        let mut i: usize = 0;
        while i < pcount
            invariant
                pcount == pins@.len(),
                pcount == pv.len(),
                0 <= i <= pcount,
                out.wf(),
                out@.root == "root"@,
                out@.nodes.contains_key("root"@),
                forall|x: int|
                    0 <= x < pins@.len() ==> #[trigger] pins@[x].0@ == pv[x].0@ && pins@[x].1@
                        == pv[x].1.original@ && pins@[x].2@ == pv[x].1.locked@,
                forall|i2: int, j2: int| 0 <= i2 < j2 < pv.len() ==> #[trigger] pv[i2].0@ != #[trigger] pv[j2].0@,
                forall|x: int|
                    0 <= x < pcount ==> out@.nodes.contains_key(#[trigger] pins@[x].0@),
                forall|x: int|
                    0 <= x < i ==> out@.nodes[#[trigger] pins@[x].0@].locked == Some(pv[x].1.locked@)
                        && out@.nodes[pins@[x].0@].original == Some(pv[x].1.original@),
            decreases pcount - i,
        {
            let ghost pre0 = out.nodes.as_map();
            let name = pins[i].0.clone();
            let mut node = match out.nodes.remove(name.as_str()) {
                None => {
                    proof {
                        assert(false);
                    }
                    return Err(LockError::MissingProject);
                },
                Some(nd) => nd,
            };
            proof {
                assert(pre0.contains_key(name@));
                assert(node == pre0[name@]);
                assert(node.wf());
            }
            node.original = Some(pins[i].1.duplicate());
            node.locked = Some(pins[i].2.duplicate());
            proof {
                assert(node.wf());
            }
            let ghost nodeg = node;
            out.nodes.insert(name, node);
            proof {
                assert forall|k: Seq<char>| out.nodes.as_map().contains_key(k) implies (
                #[trigger] out.nodes.as_map()[k]).wf() by {
                    if k != pins@[i as int].0@ {
                        assert(out.nodes.as_map()[k] == pre0[k]);
                    } else {
                        assert(out.nodes.as_map()[k] == nodeg);
                    }
                }
                assert(out@.nodes[pins@[i as int].0@] == nodeg@);
            }
            i = i + 1;
        }
        proof {
            assert forall|x: int| 0 <= x < pv.len() implies out@.nodes.contains_key(
                #[trigger] pv[x].0@,
            ) && out@.nodes[pv[x].0@].locked == Some(pv[x].1.locked@) && out@.nodes[pv[x].0@].original
                == Some(pv[x].1.original@) by {
                assert(pins@[x].0@ == pv[x].0@);
                assert(out@.nodes[pins@[x].0@].locked == Some(pv[x].1.locked@));
            }
        }
        Ok(out)
    }
}

} // verus!
