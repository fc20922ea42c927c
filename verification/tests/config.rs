use nixspace::cli::GitRef;
use nixspace::config::{
    Config, EnvConfig, LocalConfig, PolicyError, ProjectConfig, UpdateStrategy,
};
use nixspace::flake::parse;
use nixspace::strmap::StrMap;

fn listing() -> Vec<GitRef> {
    // ascending v:refname order, as the version-control tool prints it
    let mut revs = Vec::new();
    for (rev, git_ref) in [
        ("1111111", "HEAD"),
        ("2222222", "refs/heads/main"),
        ("3333333", "refs/tags/release-0.1"),
        ("4444444", "refs/tags/release-0.2"),
        ("5555555", "refs/tags/v9"),
    ] {
        revs.push(GitRef { rev: rev.to_string(), git_ref: git_ref.to_string() });
    }
    revs
}

#[test]
fn latest_takes_head() {
    let revs = listing();
    let got = UpdateStrategy::Latest.get_git_rev(&revs).unwrap();
    assert_eq!(got, Some("1111111".to_string()));
    // a listing without HEAD is a policy error
    let no_head: Vec<GitRef> = Vec::new();
    assert_eq!(
        UpdateStrategy::Latest.get_git_rev(&no_head),
        Err(PolicyError::MissingHead)
    );
}

#[test]
fn freeze_changes_nothing() {
    let revs = listing();
    let got = UpdateStrategy::Freeze.get_git_rev(&revs).unwrap();
    assert_eq!(got, None);
    // the metadata query then uses the original reference unchanged
    let r = parse("github:owner/repo").unwrap();
    let q = nixspace::config::resolve_query_ref(&r, &None);
    assert_eq!(q.flake_url().as_str(), "github:owner/repo");
    // with a decided revision the query reference is pinned
    let q = nixspace::config::resolve_query_ref(&r, &Some("a3a3ddd".to_string()));
    assert_eq!(q.flake_url().as_str(), "github:owner/repo/a3a3ddd");
}

#[test]
fn latest_tag_takes_the_last_match() {
    let revs = listing();
    let got = UpdateStrategy::LatestTag(Some("release-*".to_string()))
        .get_git_rev(&revs)
        .unwrap();
    assert_eq!(got, Some("4444444".to_string()));
    // no glob matches every tag, like the explicit `*`
    let all = UpdateStrategy::LatestTag(None).get_git_rev(&revs).unwrap();
    let star = UpdateStrategy::LatestTag(Some("*".to_string()))
        .get_git_rev(&revs)
        .unwrap();
    assert_eq!(all, star);
    assert_eq!(all, Some("5555555".to_string()));
    // nothing under refs/tags: no revision, but no error either
    let none = UpdateStrategy::LatestTag(Some("nothing-*".to_string()))
        .get_git_rev(&revs)
        .unwrap();
    assert_eq!(none, None);
}

#[test]
fn branch_takes_the_named_entry() {
    let revs = listing();
    let got = UpdateStrategy::Branch("refs/heads/main".to_string())
        .get_git_rev(&revs)
        .unwrap();
    assert_eq!(got, Some("2222222".to_string()));
    assert_eq!(
        UpdateStrategy::Branch("refs/heads/gone".to_string()).get_git_rev(&revs),
        Err(PolicyError::MissingBranch)
    );
}

#[test]
fn test_deserialize() {
    let mut overrides = StrMap::new();
    overrides.insert("stage".to_string(), UpdateStrategy::Freeze);
    let config = Config {
        environments: Vec::from([
            EnvConfig { name: "dev".to_string(), strategy: UpdateStrategy::Latest },
            EnvConfig { name: "stage".to_string(), strategy: UpdateStrategy::Freeze },
            EnvConfig {
                name: "prod".to_string(),
                strategy: UpdateStrategy::LatestTag(Some("release-*".to_string())),
            },
        ]),
        projects: Vec::from([
            ProjectConfig {
                name: "project-a".to_string(),
                url: "github:chadac/project-a".to_string(),
                path: Some("./project-a".to_string()),
                strategy: None,
            },
            ProjectConfig {
                name: "project-b".to_string(),
                url: "github:chadac/project-b".to_string(),
                path: Some("./subfolder/project-b".to_string()),
                strategy: Some(overrides),
            },
        ]),
        default_env: "dev".to_string(),
    };
    let env = config.env("prod").unwrap();
    assert!(matches!(env.strategy, UpdateStrategy::LatestTag(Some(_))));
    let p = config.project("project-b").unwrap();
    let eff = p.strategy_for("stage", &UpdateStrategy::Latest);
    assert!(matches!(eff, UpdateStrategy::Freeze));
    let eff = p.strategy_for("dev", &UpdateStrategy::Latest);
    assert!(matches!(eff, UpdateStrategy::Latest));
    assert!(config.env("missing").is_err());
    assert!(config.project("missing").is_err());
}

#[test]
fn local_overlay_defaults_to_not_editable() {
    let mut local = LocalConfig::new();
    assert!(!local.is_editable("a"));
    local.mark_editable("a");
    assert!(local.is_editable("a"));
    local.unmark_editable("a");
    assert!(!local.is_editable("a"));
}
