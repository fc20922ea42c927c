use nixspace::cli::parse_ls_remote;
use nixspace::flake::parse;
use nixspace::lockfile::{FlakeType, InputSpec, LockFile, LockedRef};
use nixspace::strmap::StrMap;
use nixspace::workspace::{Workspace, WorkspaceError};

#[test]
fn init_creates_the_default_layout() {
    let ws = Workspace::init("/tmp/ws");
    assert_eq!(ws.config_path(), "/tmp/ws/nixspace.toml".to_string());
    assert_eq!(ws.lock_path("dev"), "/tmp/ws/.nixspace/dev.lock".to_string());
    assert_eq!(ws.local_path(), "/tmp/ws/.nixspace/local.json".to_string());
    let files = ws.files();
    assert_eq!(
        files,
        vec![
            "/tmp/ws/flake.nix".to_string(),
            "/tmp/ws/flake.lock".to_string(),
            "/tmp/ws/nixspace.toml".to_string(),
            "/tmp/ws/.nixspace/dev.lock".to_string(),
        ]
    );
}

#[test]
fn register_and_deregister_round_trip() {
    let mut ws = Workspace::init("/tmp/ws");
    let r = parse("github:owner/proj").unwrap();
    let p = ws.register("proj", &r, &Some("./proj".to_string()));
    assert_eq!(p.config.name, "proj".to_string());
    assert!(!p.editable);
    let got = ws.project("proj").unwrap();
    assert_eq!(got.config.url, "github:owner/proj".to_string());
    assert!(!got.editable);
    ws.mark_editable("proj");
    assert!(ws.project("proj").unwrap().editable);
    ws.deregister("proj").unwrap();
    assert!(ws.project("proj").is_err());
    assert!(ws.deregister("proj").is_err());
}

#[test]
fn projects_lists_everything_in_config_order() {
    let mut ws = Workspace::init("/tmp/ws");
    ws.register("b", &parse("github:o/b").unwrap(), &None);
    ws.register("a", &parse("github:o/a").unwrap(), &None);
    let ps = ws.projects().unwrap();
    assert_eq!(ps.len(), 2);
    assert_eq!(ps[0].config.name, "b".to_string());
    assert_eq!(ps[1].config.name, "a".to_string());
}

#[test]
fn listing_output_parses_into_pairs() {
    let raw = "1111111\tHEAD\n2222222\trefs/tags/v1";
    let revs = parse_ls_remote(raw).unwrap();
    assert_eq!(revs.len(), 2);
    assert_eq!(revs[0].rev, "1111111".to_string());
    assert_eq!(revs[0].git_ref, "HEAD".to_string());
    assert_eq!(revs[1].rev, "2222222".to_string());
    assert_eq!(revs[1].git_ref, "refs/tags/v1".to_string());
    assert!(parse_ls_remote("only-one-token").is_err());
    assert!(parse_ls_remote("").is_err());
}

#[test]
fn deregister_reports_a_rootless_lockfile() {
    let mut ws = Workspace::init("/tmp/ws");
    ws.register("proj", &parse("github:owner/proj").unwrap(), &None);
    // an environment lockfile that lost its root node blocks removal
    let pin = InputSpec {
        flake_type: FlakeType::GitHub,
        nar_hash: None,
        url: None,
        owner: Some("owner".to_string()),
        repo: Some("proj".to_string()),
        dir: None,
        rev: Some("a3a3ddd".to_string()),
        git_ref: None,
        rev_count: None,
        last_modified: None,
    };
    let mut nodes = StrMap::new();
    nodes.insert(
        "proj".to_string(),
        LockedRef { flake: None, locked: Some(pin), original: None, inputs: None },
    );
    ws.lock.insert(
        "dev".to_string(),
        LockFile { nodes, root: "root".to_string(), version: 7 },
    );
    assert!(matches!(
        ws.deregister("proj"),
        Err(WorkspaceError::Lock(_))
    ));
    // the healthy case removes the node from every environment
    let mut ws = Workspace::init("/tmp/ws");
    ws.register("proj", &parse("github:owner/proj").unwrap(), &None);
    ws.deregister("proj").unwrap();
    assert!(ws.projects().unwrap().is_empty());
}
