//! Workspace configuration: named environments with update policies,
//! registered projects, and the user-local overlay. The update-policy
//! resolver computes a new pinned revision from a remote listing.
use vstd::prelude::*;

use crate::cli::GitRef;
use crate::flake::{FlakeRef, FlakeError, parse_view, parse};
use crate::lockfile::{clone_opt_string, opt_view};
use crate::strmap::StrMap;
use crate::strs::str_eq;

verus! {

/// How an environment follows its projects' upstreams.
#[derive(Debug)]
pub enum UpdateStrategy {
    Latest,
    Freeze,
    LatestTag(Option<String>),
    Branch(String),
}

pub ghost enum UpdateStrategyView {
    Latest,
    Freeze,
    LatestTag(Option<Seq<char>>),
    Branch(Seq<char>),
}

impl View for UpdateStrategy {
    type V = UpdateStrategyView;

    open spec fn view(&self) -> UpdateStrategyView {
        match self {
            UpdateStrategy::Latest => UpdateStrategyView::Latest,
            UpdateStrategy::Freeze => UpdateStrategyView::Freeze,
            UpdateStrategy::LatestTag(p) => UpdateStrategyView::LatestTag(opt_view(*p)),
            UpdateStrategy::Branch(b) => UpdateStrategyView::Branch(b@),
        }
    }
}

impl UpdateStrategy {
    /// An exact copy, stated over the views.
    pub fn duplicate(&self) -> (r: UpdateStrategy)
        ensures
            r@ == self@,
    {
        match self {
            UpdateStrategy::Latest => UpdateStrategy::Latest,
            UpdateStrategy::Freeze => UpdateStrategy::Freeze,
            UpdateStrategy::LatestTag(p) => UpdateStrategy::LatestTag(clone_opt_string(p)),
            UpdateStrategy::Branch(b) => UpdateStrategy::Branch(b.clone()),
        }
    }
}

/// The remote listing does not contain what the policy asks for.
#[derive(Clone, Copy, Debug, PartialEq, Eq, Structural)]
pub enum PolicyError {
    /// `Latest` found no entry named `HEAD`.
    MissingHead,
    /// `Branch(b)` found no entry named `b`.
    MissingBranch,
}

/// Whether a glob pattern matches a string.
pub uninterp spec fn glob_matches(pattern: Seq<char>, s: Seq<char>) -> bool;

/// Relies on `glob_match::glob_match`: glob-pattern matching over two
/// plain strings, computed byte by byte from the pattern and the
/// candidate alone. Path-separator handling follows the build target,
/// as the crate consults `std::path::is_separator`.
#[verifier::external_body]
fn glob_match_ex(pattern: &str, s: &str) -> (r: bool)
    ensures
        r == glob_matches(pattern@, s@),
{
    glob_match::glob_match(pattern, s)
}

/// The first revision bound to exactly this ref name.
pub open spec fn find_ref(revs: Seq<(Seq<char>, Seq<char>)>, name: Seq<char>) -> Option<Seq<char>>
    decreases revs.len(),
{
    if revs.len() == 0 {
        None
    } else if revs[0].1 == name {
        Some(revs[0].0)
    } else {
        find_ref(revs.skip(1), name)
    }
}

/// The revision of the last entry whose ref matches the pattern; the
/// listing arrives in ascending `v:refname` order, so the last match
/// is the newest.
pub open spec fn last_tag_match(
    revs: Seq<(Seq<char>, Seq<char>)>,
    pattern: Seq<char>,
) -> Option<Seq<char>>
    decreases revs.len(),
{
    if revs.len() == 0 {
        None
    } else if glob_matches(pattern, revs.last().1) {
        Some(revs.last().0)
    } else {
        last_tag_match(revs.drop_last(), pattern)
    }
}

/// The tag glob a `latest-tag` policy filters with; absent means all.
pub open spec fn tag_pattern(p: Option<Seq<char>>) -> Seq<char> {
    "refs/tags/"@ + (match p {
        Some(g) => g,
        None => "*"@,
    })
}

/// What a policy decides on a remote listing: no change, a concrete
/// revision, or a failure.
pub open spec fn spec_get_rev(
    st: UpdateStrategyView,
    revs: Seq<(Seq<char>, Seq<char>)>,
) -> Option<Option<Seq<char>>> {
    match st {
        UpdateStrategyView::Latest => match find_ref(revs, "HEAD"@) {
            Some(r) => Some(Some(r)),
            None => None,
        },
        UpdateStrategyView::Freeze => Some(None),
        UpdateStrategyView::LatestTag(p) => Some(last_tag_match(revs, tag_pattern(p))),
        UpdateStrategyView::Branch(b) => match find_ref(revs, b) {
            Some(r) => Some(Some(r)),
            None => None,
        },
    }
}

/// A `latest-tag` policy without a glob behaves exactly like one with
/// the glob `*`.
pub proof fn lemma_latest_tag_default(revs: Seq<(Seq<char>, Seq<char>)>)
    ensures
        spec_get_rev(UpdateStrategyView::LatestTag(None), revs) == spec_get_rev(
            UpdateStrategyView::LatestTag(Some("*"@)),
            revs,
        ),
{
    assert(tag_pattern(None) == tag_pattern(Some("*"@)));
}

/// View of a listing as `(rev, ref)` pairs.
pub open spec fn revs_view(revs: Seq<GitRef>) -> Seq<(Seq<char>, Seq<char>)> {
    Seq::new(revs.len(), |i: int| (revs[i].rev@, revs[i].git_ref@))
}

impl UpdateStrategy {
    /// Decide the new pinned revision from a remote listing: `None`
    /// means the pin is left as it is.
    pub fn get_git_rev(&self, revs: &Vec<GitRef>) -> (r: Result<Option<String>, PolicyError>)
        ensures
            match r {
                Ok(o) => spec_get_rev(self@, revs_view(revs@)) == Some(opt_view(o)),
                Err(e) => {
                    &&& spec_get_rev(self@, revs_view(revs@)) is None
                    &&& (e == PolicyError::MissingHead <==> self@ is Latest)
                    &&& (e == PolicyError::MissingBranch <==> self@ is Branch)
                },
            },
    {
        let ghost rv = revs_view(revs@);
        match self {
            UpdateStrategy::Latest => {
                match find_ref_ex(revs, "HEAD") {
                    Some(rev) => Ok(Some(rev)),
                    None => Err(PolicyError::MissingHead),
                }
            },
            UpdateStrategy::Freeze => Ok(None),
            UpdateStrategy::LatestTag(pattern) => {
                let mut glob = String::from_str("refs/tags/");
                match pattern {
                    Some(p) => {
                        glob.append(p.as_str());
                    },
                    None => {
                        glob.append("*");
                    },
                }
                proof {
                    assert(glob@ == tag_pattern(opt_view(*pattern)));
                }
                Ok(last_tag_match_ex(revs, glob.as_str()))
            },
            UpdateStrategy::Branch(branch) => {
                match find_ref_ex(revs, branch.as_str()) {
                    Some(rev) => Ok(Some(rev)),
                    None => Err(PolicyError::MissingBranch),
                }
            },
        }
    }
}

fn find_ref_ex(revs: &Vec<GitRef>, name: &str) -> (r: Option<String>)
    ensures
        opt_view(r) == find_ref(revs_view(revs@), name@),
{
    let ghost rv = revs_view(revs@);
    proof {
        assert(rv.skip(0) =~= rv);
    }
    let n = revs.len();
    let mut i: usize = 0;
    while i < n
        invariant
            n == revs@.len(),
            0 <= i <= n,
            rv == revs_view(revs@),
            find_ref(rv, name@) == find_ref(rv.skip(i as int), name@),
        decreases n - i,
    {
        proof {
            assert(rv.skip(i as int)[0] == rv[i as int]);
            assert(rv.skip(i as int).skip(1) =~= rv.skip(i + 1));
        }
        if str_eq(revs[i].git_ref.as_str(), name) {
            return Some(revs[i].rev.clone());
        }
        i = i + 1;
    }
    proof {
        assert(rv.skip(n as int).len() == 0);
    }
    None
}

fn last_tag_match_ex(revs: &Vec<GitRef>, pattern: &str) -> (r: Option<String>)
    ensures
        opt_view(r) == last_tag_match(revs_view(revs@), pattern@),
{
    let ghost rv = revs_view(revs@);
    proof {
        assert(rv.take(rv.len() as int) =~= rv);
    }
    let n = revs.len();
    let mut i: usize = n;
    while i > 0
        invariant
            n == revs@.len(),
            0 <= i <= n,
            rv == revs_view(revs@),
            last_tag_match(rv, pattern@) == last_tag_match(rv.take(i as int), pattern@),
        decreases i,
    {
        proof {
            assert(rv.take(i as int).last() == rv[i - 1]);
            assert(rv.take(i as int).drop_last() =~= rv.take(i - 1));
        }
        if glob_match_ex(pattern, revs[i - 1].git_ref.as_str()) {
            return Some(revs[i - 1].rev.clone());
        }
        i = i - 1;
    }
    proof {
        assert(rv.take(0).len() == 0);
    }
    None
}

/// The reference a metadata query should use after the policy's
/// decision: the original reference, pinned when a revision was found.
pub fn resolve_query_ref(flake_ref: &FlakeRef, rev: &Option<String>) -> (r: FlakeRef)
    ensures
        r@ == match opt_view(*rev) {
            Some(rv) => crate::flake::with_rev_view(flake_ref@, rv),
            None => flake_ref@,
        },
{
    match rev {
        Some(rv) => flake_ref.with_rev(rv.as_str()),
        None => flake_ref.duplicate(),
    }
}

// ------------------------------------------------------------------
// Configuration documents
// ------------------------------------------------------------------

/// A named environment and its default update policy.
#[derive(Debug)]
pub struct EnvConfig {
    pub name: String,
    pub strategy: UpdateStrategy,
}

/// A registered project: stable name, reference URL, optional local
/// path and optional per-environment policy overrides.
#[derive(Debug)]
pub struct ProjectConfig {
    pub name: String,
    pub url: String,
    pub path: Option<String>,
    pub strategy: Option<StrMap<UpdateStrategy>>,
}

/// The persistent workspace configuration.
#[derive(Debug)]
pub struct Config {
    pub environments: Vec<EnvConfig>,
    pub projects: Vec<ProjectConfig>,
    pub default_env: String,
}

/// The user-local editable flag of one project.
#[derive(Debug)]
pub struct LocalProjectConfig {
    pub editable: bool,
}

/// The user-local overlay; it is not published.
#[derive(Debug)]
pub struct LocalConfig {
    pub projects: StrMap<LocalProjectConfig>,
}

/// The same optional override table: the same environment keys, and
/// for each one the same policy.
pub open spec fn strategy_matches(
    a: Option<StrMap<UpdateStrategy>>,
    b: Option<StrMap<UpdateStrategy>>,
) -> bool {
    match (a, b) {
        (Option::None, Option::None) => true,
        (Option::Some(x), Option::Some(y)) => {
            &&& x.as_map().dom() == y.as_map().dom()
            &&& forall|k: Seq<char>|
                x.as_map().contains_key(k) ==> (#[trigger] x.as_map()[k])@ == y.as_map()[k]@
        },
        _ => false,
    }
}

/// A lookup names an environment or project the config does not have.
#[derive(Clone, Copy, Debug, PartialEq, Eq, Structural)]
pub enum ConfigError {
    UnknownEnvironment,
    UnknownProject,
}

impl Config {
    /// A fresh configuration with one `dev` environment tracking the
    /// latest upstream.
    pub fn new() -> (r: Config)
        ensures
            r.environments@.len() == 1,
            r.environments@[0].name@ == "dev"@,
            r.environments@[0].strategy@ is Latest,
            r.projects@.len() == 0,
            r.default_env@ == "dev"@,
    {
        let mut environments: Vec<EnvConfig> = Vec::new();
        environments.push(
            EnvConfig { name: String::from_str("dev"), strategy: UpdateStrategy::Latest },
        );
        Config { environments, projects: Vec::new(), default_env: String::from_str("dev") }
    }

    /// The environment of that name, or an error.
    pub fn env(&self, name: &str) -> (r: Result<&EnvConfig, ConfigError>)
        ensures
            match r {
                Ok(e) => exists|i: int|
                    {
                        &&& 0 <= i < self.environments@.len()
                        &&& (#[trigger] self.environments@[i]).name@ == name@
                        &&& *e == self.environments@[i]
                        &&& forall|j: int|
                            0 <= j < i ==> (#[trigger] self.environments@[j]).name@ != name@
                    },
                Err(err) => {
                    &&& forall|i: int|
                        0 <= i < self.environments@.len() ==> (
                        #[trigger] self.environments@[i]).name@ != name@
                    &&& err == ConfigError::UnknownEnvironment
                },
            },
    {
        let n = self.environments.len();
        let mut i: usize = 0;
        while i < n
            invariant
                n == self.environments@.len(),
                0 <= i <= n,
                forall|j: int|
                    0 <= j < i ==> (#[trigger] self.environments@[j]).name@ != name@,
            decreases n - i,
        {
            if str_eq(self.environments[i].name.as_str(), name) {
                return Ok(&self.environments[i]);
            }
            i = i + 1;
        }
        Err(ConfigError::UnknownEnvironment)
    }

    /// A mutable handle on the environment of that name.
    pub fn env_mut(&mut self, name: &str) -> (r: Result<&mut EnvConfig, ConfigError>)
        ensures
            match r {
                Ok(e) => exists|i: int|
                    {
                        &&& 0 <= i < old(self).environments@.len()
                        &&& (#[trigger] old(self).environments@[i]).name@ == name@
                        &&& forall|j: int|
                            0 <= j < i ==> (#[trigger] old(self).environments@[j]).name@ != name@
                        &&& *e == old(self).environments@[i]
                        &&& final(self).environments@ == old(self).environments@.update(
                            i,
                            *final(e),
                        )
                        &&& final(self).projects == old(self).projects
                        &&& final(self).default_env == old(self).default_env
                    },
                Err(err) => {
                    &&& *final(self) == *old(self)
                    &&& forall|i: int|
                        0 <= i < old(self).environments@.len() ==> (
                        #[trigger] old(self).environments@[i]).name@ != name@
                    &&& err == ConfigError::UnknownEnvironment
                },
            },
    {
        let n = self.environments.len();
        let mut i: usize = 0;
        while i < n
            invariant
                self == old(self),
                n == self.environments@.len(),
                0 <= i <= n,
                forall|j: int|
                    0 <= j < i ==> (#[trigger] self.environments@[j]).name@ != name@,
            decreases n - i,
        {
            if str_eq(self.environments[i].name.as_str(), name) {
                let r = &mut self.environments[i];
                return Ok(r);
            }
            i = i + 1;
        }
        Err(ConfigError::UnknownEnvironment)
    }

    /// The environment names, in configuration order.
    pub fn environments(&self) -> (r: Vec<String>)
        ensures
            r@.len() == self.environments@.len(),
            forall|i: int|
                0 <= i < r@.len() ==> #[trigger] r@[i]@ == self.environments@[i].name@,
    {
        let n = self.environments.len();
        let mut out: Vec<String> = Vec::new();
        let mut i: usize = 0;
        while i < n
            invariant
                n == self.environments@.len(),
                0 <= i <= n,
                out@.len() == i,
                forall|j: int| 0 <= j < i ==> #[trigger] out@[j]@ == self.environments@[j].name@,
            decreases n - i,
        {
            out.push(self.environments[i].name.clone());
            i = i + 1;
        }
        out
    }

    /// The project of that name, or an error.
    pub fn project(&self, name: &str) -> (r: Result<&ProjectConfig, ConfigError>)
        ensures
            match r {
                Ok(p) => exists|i: int|
                    {
                        &&& 0 <= i < self.projects@.len()
                        &&& (#[trigger] self.projects@[i]).name@ == name@
                        &&& *p == self.projects@[i]
                        &&& forall|j: int|
                            0 <= j < i ==> (#[trigger] self.projects@[j]).name@ != name@
                    },
                Err(err) => {
                    &&& forall|i: int|
                        0 <= i < self.projects@.len() ==> (#[trigger] self.projects@[i]).name@
                            != name@
                    &&& err == ConfigError::UnknownProject
                },
            },
    {
        let n = self.projects.len();
        let mut i: usize = 0;
        while i < n
            invariant
                n == self.projects@.len(),
                0 <= i <= n,
                forall|j: int| 0 <= j < i ==> (#[trigger] self.projects@[j]).name@ != name@,
            decreases n - i,
        {
            if str_eq(self.projects[i].name.as_str(), name) {
                return Ok(&self.projects[i]);
            }
            i = i + 1;
        }
        Err(ConfigError::UnknownProject)
    }

    /// Register a project under `name` with the reference's canonical
    /// URL and an optional local path.
    pub fn add_project(&mut self, name: &str, flake_ref: &FlakeRef, path: &Option<String>)
        ensures
            final(self).environments == old(self).environments,
            final(self).default_env == old(self).default_env,
            final(self).projects@.len() == old(self).projects@.len() + 1,
            forall|i: int|
                0 <= i < old(self).projects@.len() ==> #[trigger] final(self).projects@[i] == old(
                    self,
                ).projects@[i],
            ({
                let p = final(self).projects@.last();
                &&& p.name@ == name@
                &&& p.url@ == crate::flake::print_view(flake_ref@)
                &&& opt_view(p.path) == opt_view(*path)
                &&& p.strategy is None
            }),
    {
        self.projects.push(
            ProjectConfig {
                name: name.to_owned(),
                url: flake_ref.flake_url(),
                path: clone_opt_string(path),
                strategy: None,
            },
        );
    }

    /// Remove the first project whose URL is the reference's canonical
    /// form, returning it.
    pub fn rm_project(&mut self, flake_ref: &FlakeRef) -> (r: Result<ProjectConfig, ConfigError>)
        ensures
            match r {
                Ok(p) => exists|i: int|
                    {
                        &&& 0 <= i < old(self).projects@.len()
                        &&& (#[trigger] old(self).projects@[i]).url@ == crate::flake::print_view(
                            flake_ref@,
                        )
                        &&& forall|j: int|
                            0 <= j < i ==> (#[trigger] old(self).projects@[j]).url@
                                != crate::flake::print_view(flake_ref@)
                        &&& p == old(self).projects@[i]
                        &&& final(self).projects@ == old(self).projects@.remove(i)
                        &&& final(self).environments == old(self).environments
                        &&& final(self).default_env == old(self).default_env
                    },
                Err(err) => {
                    &&& *final(self) == *old(self)
                    &&& forall|i: int|
                        0 <= i < old(self).projects@.len() ==> (#[trigger] old(self).projects@[i]).url@
                            != crate::flake::print_view(flake_ref@)
                    &&& err == ConfigError::UnknownProject
                },
            },
    {
        let url = flake_ref.flake_url();
        let n = self.projects.len();
        let mut i: usize = 0;
        while i < n
            invariant
                self == old(self),
                n == self.projects@.len(),
                url@ == crate::flake::print_view(flake_ref@),
                0 <= i <= n,
                forall|j: int|
                    0 <= j < i ==> (#[trigger] self.projects@[j]).url@ != crate::flake::print_view(
                        flake_ref@,
                    ),
            decreases n - i,
        {
            if str_eq(self.projects[i].url.as_str(), url.as_str()) {
                let p = self.projects.remove(i);
                return Ok(p);
            }
            i = i + 1;
        }
        Err(ConfigError::UnknownProject)
    }

    /// The first project whose URL is the reference's canonical form.
    pub fn get_project_by_flake_ref(&self, flake_ref: &FlakeRef) -> (r: Option<&ProjectConfig>)
        ensures
            match r {
                Some(p) => exists|i: int|
                    {
                        &&& 0 <= i < self.projects@.len()
                        &&& (#[trigger] self.projects@[i]).url@ == crate::flake::print_view(
                            flake_ref@,
                        )
                        &&& *p == self.projects@[i]
                        &&& forall|j: int|
                            0 <= j < i ==> (#[trigger] self.projects@[j]).url@
                                != crate::flake::print_view(flake_ref@)
                    },
                None => forall|i: int|
                    0 <= i < self.projects@.len() ==> (#[trigger] self.projects@[i]).url@
                        != crate::flake::print_view(flake_ref@),
            },
    {
        let url = flake_ref.flake_url();
        let n = self.projects.len();
        let mut i: usize = 0;
        while i < n
            invariant
                n == self.projects@.len(),
                url@ == crate::flake::print_view(flake_ref@),
                0 <= i <= n,
                forall|j: int|
                    0 <= j < i ==> (#[trigger] self.projects@[j]).url@ != crate::flake::print_view(
                        flake_ref@,
                    ),
            decreases n - i,
        {
            if str_eq(self.projects[i].url.as_str(), url.as_str()) {
                return Some(&self.projects[i]);
            }
            i = i + 1;
        }
        None
    }
}

impl ProjectConfig {
    /// Parse this project's reference URL.
    pub fn flake_ref(&self) -> (r: Result<FlakeRef, FlakeError>)
        ensures
            match r {
                Ok(fr) => parse_view(self.url@) == Some(fr@),
                Err(_) => parse_view(self.url@) is None,
            },
    {
        parse(self.url.as_str())
    }

    /// The policy to use for one environment: the project's override
    /// for that environment, or the given default.
    pub fn strategy_for<'a>(&'a self, env: &str, default: &'a UpdateStrategy) -> (r:
        &'a UpdateStrategy)
        requires
            match self.strategy {
                Some(m) => m.wf(),
                None => true,
            },
        ensures
            *r == match self.strategy {
                Some(m) => {
                    if m.as_map().contains_key(env@) {
                        m.as_map()[env@]
                    } else {
                        *default
                    }
                },
                None => *default,
            },
    {
        match &self.strategy {
            Some(m) => match m.get(env) {
                Some(s) => s,
                None => default,
            },
            None => default,
        }
    }
}

impl LocalConfig {
    /// A fresh, empty overlay.
    pub fn new() -> (r: LocalConfig)
        ensures
            r.projects@.len() == 0,
            r.projects.wf(),
    {
        LocalConfig { projects: StrMap::new() }
    }

    /// Whether a project is editable; absent entries are not.
    pub fn is_editable(&self, project_name: &str) -> (r: bool)
        requires
            self.projects.wf(),
        ensures
            r == (self.projects.as_map().contains_key(project_name@)
                && self.projects.as_map()[project_name@].editable),
    {
        match self.projects.get(project_name) {
            Some(p) => p.editable,
            None => false,
        }
    }

    /// Mark a project editable.
    pub fn mark_editable(&mut self, project_name: &str)
        requires
            old(self).projects.wf(),
        ensures
            final(self).projects.wf(),
            final(self).projects.as_map().contains_key(project_name@),
            final(self).projects.as_map()[project_name@].editable,
            final(self).projects.as_map() == old(self).projects.as_map().insert(
                project_name@,
                final(self).projects.as_map()[project_name@],
            ),
    {
        self.projects.insert(project_name.to_owned(), LocalProjectConfig { editable: true });
    }

    /// Mark a project not editable.
    pub fn unmark_editable(&mut self, project_name: &str)
        requires
            old(self).projects.wf(),
        ensures
            final(self).projects.wf(),
            final(self).projects.as_map().contains_key(project_name@),
            !final(self).projects.as_map()[project_name@].editable,
            final(self).projects.as_map() == old(self).projects.as_map().insert(
                project_name@,
                final(self).projects.as_map()[project_name@],
            ),
    {
        self.projects.insert(project_name.to_owned(), LocalProjectConfig { editable: false });
    }
}

} // verus!
