//! The workspace aggregate: configuration, one lockfile per
//! environment, and the user-local overlay. File and subprocess work
//! stays with the caller; the operations here are the pure state
//! transitions they drive.
use vstd::prelude::*;

use crate::cli::FlakeMetadata;
use crate::config::{Config, LocalConfig, ProjectConfig, strategy_matches};
use crate::flake::{FlakeRef, parse_view, print_view};
use crate::lockfile::{
    LockError, LockFile, clone_opt_string, is_empty_lockfile, opt_view, rm_blocked, rm_nodes,
};
use crate::merge::metadata_inputs_ok;
use crate::strmap::StrMap;

verus! {

/// A project together with its parsed reference and editable flag.
#[derive(Debug)]
pub struct ProjectRef {
    pub config: ProjectConfig,
    pub flake_ref: FlakeRef,
    pub editable: bool,
}

/// A deregistration or lockfile maintenance failure.
#[derive(Clone, Copy, Debug, PartialEq, Eq, Structural)]
pub enum WorkspaceError {
    UnknownProject,
    BadProjectUrl,
    Lock(LockError),
}

/// The workspace: its root directory, configuration, per-environment
/// lockfiles and local overlay.
#[derive(Debug)]
pub struct Workspace {
    pub root: String,
    pub config: Config,
    pub lock: StrMap<LockFile>,
    pub local: LocalConfig,
}

impl Workspace {
    /// Structural invariants of the aggregate.
    pub open spec fn wf(&self) -> bool {
        &&& self.lock.wf()
        &&& forall|i: int| 0 <= i < self.lock@.len() ==> (#[trigger] self.lock@[i].1).wf()
        &&& self.local.projects.wf()
        &&& forall|i: int|
            0 <= i < self.config.projects@.len() ==> match (
            #[trigger] self.config.projects@[i]).strategy {
                Some(m) => m.wf(),
                None => true,
            }
    }

    /// A fresh workspace at `root` with the default configuration and
    /// one empty lockfile for its single environment.
    pub fn init(root: &str) -> (r: Workspace)
        ensures
            r.wf(),
            r.root@ == root@,
            r.config.projects@.len() == 0,
            r.config.environments@.len() == 1,
            r.config.environments@[0].name@ == "dev"@,
            r.config.environments@[0].strategy@ is Latest,
            r.config.default_env@ == "dev"@,
            r.lock.as_map().dom() == set!["dev"@],
            is_empty_lockfile(r.lock.as_map()["dev"@]@),
            r.local.projects@.len() == 0,
    {
        let config = Config::new();
        let mut lock: StrMap<LockFile> = StrMap::new();
        lock.insert(String::from_str("dev"), LockFile::empty());
        proof {
            assert(lock.as_map().dom() =~= set!["dev"@]);
            lock.lemma_props();
            assert forall|i: int| 0 <= i < lock@.len() implies (#[trigger] lock@[i].1).wf() by {
                assert(lock@[i].1 == lock.as_map()[lock@[i].0@]);
            }
        }
        Workspace { root: root.to_owned(), config, lock, local: LocalConfig::new() }
    }

    /// Path of the persistent configuration file.
    pub fn config_path(&self) -> (r: String)
        ensures
            r@ == self.root@ + "/nixspace.toml"@,
    {
        let mut out = self.root.clone();
        out.append("/nixspace.toml");
        out
    }

    /// Path of one environment's lockfile.
    pub fn lock_path(&self, env: &str) -> (r: String)
        ensures
            r@ == self.root@ + "/.nixspace/"@ + env@ + ".lock"@,
    {
        let mut out = self.root.clone();
        out.append("/.nixspace/");
        out.append(env);
        out.append(".lock");
        out
    }

    /// Path of the user-local overlay.
    pub fn local_path(&self) -> (r: String)
        ensures
            r@ == self.root@ + "/.nixspace/local.json"@,
    {
        let mut out = self.root.clone();
        out.append("/.nixspace/local.json");
        out
    }

    /// The version-controlled file set: the flake files, the
    /// configuration, and one lockfile per environment. The local
    /// overlay is not part of it.
    pub fn files(&self) -> (r: Vec<String>)
        ensures
            r@.len() == 3 + self.config.environments@.len(),
            r@[0]@ == self.root@ + "/flake.nix"@,
            r@[1]@ == self.root@ + "/flake.lock"@,
            r@[2]@ == self.root@ + "/nixspace.toml"@,
            forall|i: int|
                0 <= i < self.config.environments@.len() ==> #[trigger] r@[3 + i]@ == self.root@
                    + "/.nixspace/"@ + self.config.environments@[i].name@ + ".lock"@,
    {
        let mut out: Vec<String> = Vec::new();
        let mut f = self.root.clone();
        f.append("/flake.nix");
        out.push(f);
        let mut f = self.root.clone();
        f.append("/flake.lock");
        out.push(f);
        out.push(self.config_path());
        let envs = self.config.environments();
        let n = envs.len();
        let mut i: usize = 0;
        while i < n
            invariant
                n == envs@.len(),
                envs@.len() == self.config.environments@.len(),
                forall|j: int| 0 <= j < n ==> #[trigger] envs@[j]@ == self.config.environments@[j].name@,
                0 <= i <= n,
                out@.len() == 3 + i,
                out@[0]@ == self.root@ + "/flake.nix"@,
                out@[1]@ == self.root@ + "/flake.lock"@,
                out@[2]@ == self.root@ + "/nixspace.toml"@,
                forall|j: int|
                    0 <= j < i ==> #[trigger] out@[3 + j]@ == self.root@ + "/.nixspace/"@
                        + self.config.environments@[j].name@ + ".lock"@,
            decreases n - i,
        {
            out.push(self.lock_path(envs[i].as_str()));
            i = i + 1;
        }
        out
    }

    /// The named project with its parsed reference and editable flag.
    pub fn project(&self, name: &str) -> (r: Result<ProjectRef, WorkspaceError>)
        requires
            self.wf(),
        ensures
            match r {
                Ok(p) => {
                    &&& p.config.name@ == name@
                    &&& exists|i: int|
                        0 <= i < self.config.projects@.len() && (
                        #[trigger] self.config.projects@[i]).name@ == name@ && p.config.url@
                            == self.config.projects@[i].url@ && opt_view(p.config.path)
                            == opt_view(self.config.projects@[i].path) && strategy_matches(
                            p.config.strategy,
                            self.config.projects@[i].strategy,
                        )
                    &&& parse_view(p.config.url@) == Some(p.flake_ref@)
                    &&& p.editable == (self.local.projects.as_map().contains_key(name@)
                        && self.local.projects.as_map()[name@].editable)
                },
                Err(WorkspaceError::UnknownProject) => forall|i: int|
                    0 <= i < self.config.projects@.len() ==> (
                    #[trigger] self.config.projects@[i]).name@ != name@,
                Err(WorkspaceError::BadProjectUrl) => exists|i: int|
                    0 <= i < self.config.projects@.len() && (
                    #[trigger] self.config.projects@[i]).name@ == name@ && parse_view(
                        self.config.projects@[i].url@,
                    ) is None,
                Err(_) => false,
            },
    {
        let cfg = match self.config.project(name) {
            Ok(c) => c,
            Err(_) => {
                return Err(WorkspaceError::UnknownProject);
            },
        };
        let flake_ref = match cfg.flake_ref() {
            Ok(fr) => fr,
            Err(_) => {
                return Err(WorkspaceError::BadProjectUrl);
            },
        };
        Ok(
            ProjectRef {
                config: duplicate_project_config(cfg),
                flake_ref,
                editable: self.local.is_editable(name),
            },
        )
    }

    /// All projects, each with its parsed reference.
    pub fn projects(&self) -> (r: Result<Vec<ProjectRef>, WorkspaceError>)
        requires
            self.wf(),
        ensures
            match r {
                Ok(v) => {
                    &&& v@.len() == self.config.projects@.len()
                    &&& forall|i: int|
                        0 <= i < v@.len() ==> (#[trigger] v@[i].config).name@
                            == self.config.projects@[i].name@ && v@[i].config.url@
                            == self.config.projects@[i].url@ && opt_view(v@[i].config.path)
                            == opt_view(self.config.projects@[i].path) && strategy_matches(
                            v@[i].config.strategy,
                            self.config.projects@[i].strategy,
                        ) && parse_view(v@[i].config.url@) == Some(v@[i].flake_ref@)
                            && v@[i].editable == (self.local.projects.as_map().contains_key(
                            v@[i].config.name@,
                        ) && self.local.projects.as_map()[v@[i].config.name@].editable)
                },
                Err(e) => {
                    &&& e == WorkspaceError::BadProjectUrl
                    &&& exists|i: int|
                        0 <= i < self.config.projects@.len() && parse_view(
                            (#[trigger] self.config.projects@[i]).url@,
                        ) is None
                },
            },
    {
        let n = self.config.projects.len();
        let mut out: Vec<ProjectRef> = Vec::new();
        let mut i: usize = 0;
        while i < n
            invariant
                self.wf(),
                n == self.config.projects@.len(),
                0 <= i <= n,
                out@.len() == i,
                forall|j: int|
                    0 <= j < i ==> (#[trigger] out@[j].config).name@
                        == self.config.projects@[j].name@ && out@[j].config.url@
                        == self.config.projects@[j].url@ && opt_view(out@[j].config.path)
                        == opt_view(self.config.projects@[j].path) && strategy_matches(
                        out@[j].config.strategy,
                        self.config.projects@[j].strategy,
                    ) && parse_view(out@[j].config.url@) == Some(out@[j].flake_ref@)
                        && out@[j].editable == (self.local.projects.as_map().contains_key(
                        out@[j].config.name@,
                    ) && self.local.projects.as_map()[out@[j].config.name@].editable),
            decreases n - i,
        {
            let cfg = &self.config.projects[i];
            let flake_ref = match cfg.flake_ref() {
                Ok(fr) => fr,
                Err(_) => {
                    return Err(WorkspaceError::BadProjectUrl);
                },
            };
            let editable = self.local.is_editable(cfg.name.as_str());
            out.push(ProjectRef { config: duplicate_project_config(cfg), flake_ref, editable });
            i = i + 1;
        }
        Ok(out)
    }

    /// Register a project: record it in the configuration and mark it
    /// not editable in the local overlay.
    pub fn register(&mut self, name: &str, flake_ref: &FlakeRef, path: &Option<String>) -> (r:
        ProjectRef)
        requires
            old(self).wf(),
        ensures
            final(self).wf(),
            final(self).root == old(self).root,
            final(self).lock == old(self).lock,
            final(self).config.projects@.len() == old(self).config.projects@.len() + 1,
            ({
                let p = final(self).config.projects@.last();
                &&& p.name@ == name@
                &&& p.url@ == print_view(flake_ref@)
                &&& opt_view(p.path) == opt_view(*path)
                &&& p.strategy is None
            }),
            forall|i: int|
                0 <= i < old(self).config.projects@.len() ==> #[trigger] final(self).config.projects@[i] == old(self).config.projects@[i],
            final(self).local.projects.as_map().contains_key(name@),
            !final(self).local.projects.as_map()[name@].editable,
            r.config.name@ == name@,
            r.config.url@ == print_view(flake_ref@),
            r.flake_ref@ == flake_ref@,
            r.editable == false,
    {
        self.config.add_project(name, flake_ref, path);
        self.local.unmark_editable(name);
        ProjectRef {
            config: ProjectConfig {
                name: name.to_owned(),
                url: flake_ref.flake_url(),
                path: clone_opt_string(path),
                strategy: None,
            },
            flake_ref: flake_ref.duplicate(),
            editable: false,
        }
    }

    /// Remove a project from the configuration, from every
    /// environment's lockfile, and from the local overlay.
    pub fn deregister(&mut self, name: &str) -> (r: Result<(), WorkspaceError>)
        requires
            old(self).wf(),
        ensures
            final(self).wf(),
            final(self).root == old(self).root,
            final(self).lock@.len() == old(self).lock@.len(),
            forall|x: int|
                0 <= x < old(self).lock@.len() ==> #[trigger] final(self).lock@[x].0 == old(self).lock@[x].0,
            match r {
                Ok(_) => {
                    &&& exists|i: int|
                        {
                            &&& 0 <= i < old(self).config.projects@.len()
                            &&& (#[trigger] old(self).config.projects@[i]).name@ == name@
                            &&& forall|j: int|
                                0 <= j < i ==> (#[trigger] old(self).config.projects@[j]).name@
                                    != name@
                            &&& final(self).config.projects@ == old(self).config.projects@.remove(
                                i,
                            )
                        }
                    &&& !final(self).local.projects.as_map().contains_key(name@)
                    &&& forall|x: int|
                        0 <= x < old(self).lock@.len() ==> {
                            &&& !rm_blocked((#[trigger] old(self).lock@[x].1)@, name@)
                            &&& final(self).lock@[x].1@.nodes == rm_nodes(
                                old(self).lock@[x].1@,
                                name@,
                            )
                            &&& final(self).lock@[x].1@.root == old(self).lock@[x].1@.root
                        }
                    &&& forall|i: int|
                        0 <= i < final(self).lock@.len() ==> !(#[trigger] final(self).lock@[i].1)@.nodes.contains_key(name@)
                },
                Err(WorkspaceError::UnknownProject) => {
                    &&& forall|i: int|
                        0 <= i < old(self).config.projects@.len() ==> (#[trigger] old(self).config.projects@[i]).name@ != name@
                    &&& *final(self) == *old(self)
                },
                Err(WorkspaceError::Lock(e)) => {
                    &&& e == LockError::MissingRoot
                    &&& exists|i: int|
                        {
                            &&& 0 <= i < old(self).config.projects@.len()
                            &&& (#[trigger] old(self).config.projects@[i]).name@ == name@
                            &&& forall|j: int|
                                0 <= j < i ==> (#[trigger] old(self).config.projects@[j]).name@
                                    != name@
                            &&& final(self).config.projects@ == old(self).config.projects@.remove(
                                i,
                            )
                        }
                    &&& final(self).local == old(self).local
                    &&& exists|x: int|
                        {
                            &&& 0 <= x < old(self).lock@.len()
                            &&& rm_blocked((#[trigger] old(self).lock@[x].1)@, name@)
                            &&& final(self).lock@[x].1@.nodes == old(self).lock@[x].1@.nodes.remove(
                                name@,
                            )
                            &&& forall|y: int|
                                0 <= y < x ==> !rm_blocked((#[trigger] old(self).lock@[y].1)@, name@)
                                    && final(self).lock@[y].1@.nodes == rm_nodes(
                                    old(self).lock@[y].1@,
                                    name@,
                                )
                            &&& forall|y: int|
                                x < y < old(self).lock@.len() ==> #[trigger] final(self).lock@[y].1
                                    == old(self).lock@[y].1
                        }
                },
                Err(_) => false,
            },
    {
        // remove the project from the configuration
        let n = self.config.projects.len();
        let mut idx: usize = 0;
        let mut found = false;
        while idx < n && !found
            invariant
                *self == *old(self),
                n == self.config.projects@.len(),
                0 <= idx <= n,
                found ==> idx < n && (self.config.projects@[idx as int]).name@ == name@,
                forall|j: int|
                    0 <= j < idx ==> (#[trigger] self.config.projects@[j]).name@ != name@,
            decreases n - idx, (if found { 0int } else { 1int }),
        {
            if crate::strs::str_eq(self.config.projects[idx].name.as_str(), name) {
                found = true;
            } else {
                idx = idx + 1;
            }
        }
        if !found {
            proof {
                assert(*final(self) == *old(self));
            }
            return Err(WorkspaceError::UnknownProject);
        }
        let ghost ridx = idx as int;
        self.config.projects.remove(idx);
        proof {
            assert(self.config.projects@ == old(self).config.projects@.remove(ridx));
        }
        // remove it from every environment's lockfile
        let m = self.lock.len();
        let mut i: usize = 0;
        while i < m
            invariant
                m == self.lock@.len(),
                0 <= i <= m,
                self.lock.wf(),
                self.root == old(self).root,
                self.local.projects.wf(),
                forall|x: int| 0 <= x < m ==> (#[trigger] self.lock@[x].1).wf(),
                forall|x: int|
                    0 <= x < self.config.projects@.len() ==> match (
                    #[trigger] self.config.projects@[x]).strategy {
                        Some(sm) => sm.wf(),
                        None => true,
                    },
                m == old(self).lock@.len(),
                forall|x: int| 0 <= x < m ==> #[trigger] self.lock@[x].0 == old(self).lock@[x].0,
                forall|x: int| i <= x < m ==> #[trigger] self.lock@[x].1 == old(self).lock@[x].1,
                forall|x: int|
                    0 <= x < i ==> {
                        &&& !rm_blocked((#[trigger] old(self).lock@[x].1)@, name@)
                        &&& self.lock@[x].1@.nodes == rm_nodes(old(self).lock@[x].1@, name@)
                        &&& self.lock@[x].1@.root == old(self).lock@[x].1@.root
                    },
                forall|x: int|
                    0 <= x < i ==> !(#[trigger] self.lock@[x].1)@.nodes.contains_key(name@),
                0 <= ridx < old(self).config.projects@.len(),
                old(self).config.projects@[ridx].name@ == name@,
                forall|j: int|
                    0 <= j < ridx ==> (#[trigger] old(self).config.projects@[j]).name@ != name@,
                self.config.projects@ == old(self).config.projects@.remove(ridx),
                self.local == old(self).local,
            decreases m - i,
        {
            proof {
                assert(self.lock@[i as int].1 == old(self).lock@[i as int].1);
            }
            let lf = self.lock.val_at_mut(i);
            match lf.rm(name) {
                Ok(_) => {},
                Err(e) => {
                    proof {
                        assert(rm_blocked(old(self).lock@[i as int].1@, name@));
                        assert(self.lock@[i as int].1@.nodes == old(
                            self,
                        ).lock@[i as int].1@.nodes.remove(name@));
                    }
                    return Err(WorkspaceError::Lock(e));
                },
            }
            i = i + 1;
        }
        // remove it from the local overlay
        self.local.projects.remove(name);
        Ok(())
    }

    /// Mark a project as using its local working copy.
    pub fn mark_editable(&mut self, project_name: &str)
        requires
            old(self).wf(),
        ensures
            final(self).wf(),
            final(self).root == old(self).root,
            final(self).config == old(self).config,
            final(self).lock == old(self).lock,
            final(self).local.projects.as_map().contains_key(project_name@),
            final(self).local.projects.as_map()[project_name@].editable,
    {
        self.local.mark_editable(project_name);
    }

    /// Mark a project as using its pinned source.
    pub fn unmark_editable(&mut self, project_name: &str)
        requires
            old(self).wf(),
        ensures
            final(self).wf(),
            final(self).root == old(self).root,
            final(self).config == old(self).config,
            final(self).lock == old(self).lock,
            final(self).local.projects.as_map().contains_key(project_name@),
            !final(self).local.projects.as_map()[project_name@].editable,
    {
        self.local.unmark_editable(project_name);
    }

    /// Install the merged lockfile built from fresh per-project
    /// metadata as the named environment's lockfile.
    pub fn update_env_lock(&mut self, env: &str, metadata: Vec<(String, FlakeMetadata)>) -> (r:
        Result<(), LockError>)
        requires
            old(self).wf(),
            forall|i: int, j: int|
                0 <= i < j < metadata@.len() ==> #[trigger] metadata@[i].0@ != #[trigger] metadata@[j].0@,
            forall|i: int| 0 <= i < metadata@.len() ==> #[trigger] metadata@[i].0@ != "root"@,
            forall|i: int| 0 <= i < metadata@.len() ==> (#[trigger] metadata@[i].1).locks.wf(),
        ensures
            final(self).wf(),
            final(self).root == old(self).root,
            final(self).config == old(self).config,
            final(self).local == old(self).local,
            metadata_inputs_ok(metadata@) ==> r is Ok,
            match r {
                Ok(_) => {
                    &&& final(self).lock.as_map() == old(self).lock.as_map().insert(
                        env@,
                        final(self).lock.as_map()[env@],
                    )
                    &&& final(self).lock.as_map().contains_key(env@)
                    &&& ({
                        let lf = final(self).lock.as_map()[env@];
                        &&& lf@.root == "root"@
                        &&& lf@.nodes.contains_key("root"@)
                        &&& forall|i: int|
                            0 <= i < metadata@.len() ==> lf@.nodes.contains_key(
                                #[trigger] metadata@[i].0@,
                            ) && lf@.nodes[metadata@[i].0@].locked == Some(metadata@[i].1.locked@)
                                && lf@.nodes[metadata@[i].0@].original == Some(
                                metadata@[i].1.original@,
                            )
                    })
                },
                Err(_) => final(self).lock == old(self).lock,
            },
    {
        let lf = match LockFile::from_metadata(metadata) {
            Ok(l) => l,
            Err(e) => {
                proof {
                    if metadata_inputs_ok(metadata@) {
                        assert(false);
                    }
                }
                return Err(e);
            },
        };
        self.lock.insert(env.to_owned(), lf);
        proof {
            assert(self.lock.as_map() =~= old(self).lock.as_map().insert(
                env@,
                self.lock.as_map()[env@],
            ));
        }
        proof {
            self.lock.lemma_props();
            assert forall|i: int| 0 <= i < self.lock@.len() implies (
            #[trigger] self.lock@[i].1).wf() by {
                assert(self.lock@[i].1 == self.lock.as_map()[self.lock@[i].0@]);
                if self.lock@[i].0@ != env@ {
                    assert(old(self).lock.as_map().contains_key(self.lock@[i].0@));
                    old(self).lock.lemma_props();
                }
            }
        }
        Ok(())
    }
}

/// An exact copy of a project entry; a fresh override map is rebuilt
/// entry by entry.
fn duplicate_project_config(p: &ProjectConfig) -> (r: ProjectConfig)
    requires
        match p.strategy {
            Some(m) => m.wf(),
            None => true,
        },
    ensures
        r.name@ == p.name@,
        r.url@ == p.url@,
        opt_view(r.path) == opt_view(p.path),
        strategy_matches(r.strategy, p.strategy),
        match r.strategy {
            Some(rm) => rm.wf(),
            None => true,
        },
{
    let strategy = match &p.strategy {
        None => None,
        Some(m) => {
            let mut out: StrMap<crate::config::UpdateStrategy> = StrMap::new();
            let n = m.len();
            let mut i: usize = 0;
            proof {
                m.lemma_props();
                crate::strmap::lemma_sorted_distinct(m@);
            }
            while i < n
                invariant
                    m.wf(),
                    n == m@.len(),
                    0 <= i <= n,
                    out.wf(),
                    forall|j1: int, j2: int|
                        0 <= j1 < j2 < n ==> #[trigger] m@[j1].0@ != #[trigger] m@[j2].0@,
                    forall|k: Seq<char>|
                        #[trigger] out.as_map().contains_key(k) ==> exists|j: int|
                            0 <= j < i && #[trigger] m@[j].0@ == k,
                    forall|j: int|
                        0 <= j < i ==> out.as_map().contains_key(#[trigger] m@[j].0@)
                            && out.as_map()[m@[j].0@]@ == m@[j].1@,
                decreases n - i,
            {
                let ghost pre = out.as_map();
                out.insert(m.key_at(i).clone(), m.val_at(i).duplicate());
                proof {
                    assert forall|k: Seq<char>|
                        #[trigger] out.as_map().contains_key(k) implies exists|j: int|
                        0 <= j < i + 1 && #[trigger] m@[j].0@ == k by {
                        if k == m@[i as int].0@ {
                            assert(m@[i as int].0@ == k);
                        } else {
                            assert(pre.contains_key(k));
                        }
                    }
                    assert forall|j: int|
                        0 <= j < i + 1 implies out.as_map().contains_key(#[trigger] m@[j].0@)
                        && out.as_map()[m@[j].0@]@ == m@[j].1@ by {
                        if j < i {
                            assert(m@[j].0@ != m@[i as int].0@);
                            assert(out.as_map()[m@[j].0@] == pre[m@[j].0@]);
                        }
                    }
                }
                i = i + 1;
            }
            proof {
                m.lemma_props();
                assert forall|k: Seq<char>|
                    m.as_map().contains_key(k) implies out.as_map().contains_key(k) by {
                    let j = choose|j: int| 0 <= j < m@.len() && #[trigger] m@[j].0@ == k;
                }
                assert forall|k: Seq<char>|
                    out.as_map().contains_key(k) implies m.as_map().contains_key(k) by {
                    let j = choose|j: int| 0 <= j < m@.len() && #[trigger] m@[j].0@ == k;
                }
                assert(out.as_map().dom() =~= m.as_map().dom());
                assert forall|k: Seq<char>|
                    out.as_map().contains_key(k) implies (#[trigger] out.as_map()[k])@
                    == m.as_map()[k]@ by {
                    let j = choose|j: int| 0 <= j < m@.len() && #[trigger] m@[j].0@ == k;
                    assert(out.as_map()[m@[j].0@]@ == m@[j].1@);
                    assert(m.as_map()[m@[j].0@] == m@[j].1);
                }
            }
            Some(out)
        },
    };
    ProjectConfig {
        name: p.name.clone(),
        url: p.url.clone(),
        path: clone_opt_string(&p.path),
        strategy,
    }
}

} // verus!
