use nixspace::cli::FlakeMetadata;
use nixspace::lockfile::{FlakeType, InputRef, InputSpec, LockFile, LockedRef};
use nixspace::strmap::StrMap;

fn leaf_spec(repo: &str) -> InputSpec {
    InputSpec {
        flake_type: FlakeType::GitHub,
        nar_hash: Some(format!("sha256-{repo}")),
        url: None,
        owner: Some("owner".to_string()),
        repo: Some(repo.to_string()),
        dir: None,
        rev: Some("a3a3ddd".to_string()),
        git_ref: None,
        rev_count: None,
        last_modified: None,
    }
}

fn leaf(repo: &str) -> LockedRef {
    LockedRef {
        flake: None,
        locked: Some(leaf_spec(repo)),
        original: Some(leaf_spec(repo)),
        inputs: None,
    }
}

fn node(edges: Vec<(&str, InputRef)>) -> LockedRef {
    let mut inputs = StrMap::new();
    for (label, r) in edges {
        inputs.insert(label.to_string(), r);
    }
    LockedRef { flake: None, locked: None, original: None, inputs: Some(inputs) }
}

fn direct(n: &str) -> InputRef {
    InputRef::Direct(n.to_string())
}

/// root -> a -> b -> c, each via a direct edge.
fn chain_lockfile() -> LockFile {
    let mut lf = LockFile::empty();
    lf.nodes.insert("root".to_string(), node(vec![("a", direct("a"))]));
    lf.nodes.insert("a".to_string(), node(vec![("b", direct("b"))]));
    lf.nodes.insert("b".to_string(), node(vec![("c", direct("c"))]));
    lf.nodes.insert("c".to_string(), leaf("c"));
    lf
}

fn names(lf: &LockFile) -> Vec<String> {
    let mut out = Vec::new();
    for i in 0..lf.nodes.len() {
        out.push(lf.nodes.key_at(i).clone());
    }
    out
}

#[test]
fn add_succeeds() {}

#[test]
fn empty_lockfile_has_bare_root() {
    let lf = LockFile::empty();
    assert_eq!(lf.root, "root".to_string());
    assert_eq!(lf.version, 7);
    assert_eq!(names(&lf), vec!["root".to_string()]);
    assert!(lf.get_input_spec("root").is_none());
}

#[test]
fn get_input_spec_returns_the_pin() {
    let lf = chain_lockfile();
    let got = lf.get_input_spec("c").unwrap();
    assert_eq!(got.repo, Some("c".to_string()));
    assert_eq!(got.rev, Some("a3a3ddd".to_string()));
    assert!(lf.get_input_spec("a").is_none());
    assert!(lf.get_input_spec("nope").is_none());
}

#[test]
fn rm_on_absent_name_is_a_no_op() {
    let mut lf = chain_lockfile();
    let before = names(&lf);
    lf.rm("ghost").unwrap();
    assert_eq!(names(&lf), before);
}

#[test]
fn rm_without_root_reports_it() {
    let mut lf = LockFile::empty();
    lf.root = "missing".to_string();
    lf.nodes.insert("a".to_string(), leaf("a"));
    assert!(lf.rm("a").is_err());
}

#[test]
fn trim_after_rm_drops_the_orphans() {
    // rm(b) leaves c dangling; trim removes it, a and root stay
    let mut lf = chain_lockfile();
    lf.rm("b").unwrap();
    lf.trim().unwrap();
    assert_eq!(names(&lf), vec!["a".to_string(), "root".to_string()]);

    // removing root's only child empties the lockfile down to root
    let mut lf = chain_lockfile();
    lf.rm("a").unwrap();
    lf.trim().unwrap();
    assert_eq!(names(&lf), vec!["root".to_string()]);
    // root keeps no edges
    let root = lf.nodes.get("root").unwrap();
    assert_eq!(root.inputs.as_ref().unwrap().len(), 0);
}

#[test]
fn trim_is_idempotent() {
    let mut lf = chain_lockfile();
    lf.nodes.insert("stray".to_string(), leaf("stray"));
    lf.trim().unwrap();
    let once = names(&lf);
    assert_eq!(
        once,
        vec!["a".to_string(), "b".to_string(), "c".to_string(), "root".to_string()]
    );
    lf.trim().unwrap();
    assert_eq!(names(&lf), once);
}

#[test]
fn rename_input_rewrites_heads_and_moves_the_node() {
    let mut lf = chain_lockfile();
    lf.rename_input("b", "b2");
    assert_eq!(
        names(&lf),
        vec!["a".to_string(), "b2".to_string(), "c".to_string(), "root".to_string()]
    );
    // a's edge now points at b2
    let a = lf.nodes.get("a").unwrap();
    let r = a.inputs.as_ref().unwrap().get("b").unwrap();
    match r {
        InputRef::Direct(n) => assert_eq!(n, "b2"),
        _ => panic!("expected a direct reference"),
    }
    // renaming back restores the original shape
    lf.rename_input("b2", "b");
    assert_eq!(
        names(&lf),
        vec!["a".to_string(), "b".to_string(), "c".to_string(), "root".to_string()]
    );
    let a = lf.nodes.get("a").unwrap();
    match a.inputs.as_ref().unwrap().get("b").unwrap() {
        InputRef::Direct(n) => assert_eq!(n, "b"),
        _ => panic!("expected a direct reference"),
    }
}

#[test]
fn rename_of_absent_name_changes_nothing() {
    let mut lf = chain_lockfile();
    lf.rename_input("ghost", "elsewhere");
    assert_eq!(
        names(&lf),
        vec!["a".to_string(), "b".to_string(), "c".to_string(), "root".to_string()]
    );
}

#[test]
fn resolve_input_walks_paths() {
    let mut lf = LockFile::empty();
    lf.nodes.insert("root".to_string(), node(vec![("dep", direct("dep"))]));
    lf.nodes.insert("dep".to_string(), node(vec![("inner", direct("leafnode"))]));
    lf.nodes.insert("leafnode".to_string(), leaf("leafnode"));
    // a path: start at root, follow label dep, then label inner
    let path = InputRef::Path(vec![
        "root".to_string(),
        "dep".to_string(),
        "inner".to_string(),
    ]);
    assert_eq!(lf.resolve_input(&path).unwrap(), "leafnode".to_string());
    assert_eq!(lf.resolve_input(&direct("anything")).unwrap(), "anything".to_string());
    let bad = InputRef::Path(vec!["root".to_string(), "nope".to_string()]);
    assert!(lf.resolve_input(&bad).is_err());
}

fn metadata_for(label: &str, locks: LockFile) -> FlakeMetadata {
    FlakeMetadata {
        description: None,
        last_modified: 0,
        locked: leaf_spec(label),
        locks,
        original: leaf_spec(label),
        original_url: format!("github:owner/{label}"),
        path: "/store/path".to_string(),
        resolved: leaf_spec(label),
        resolved_url: format!("github:owner/{label}"),
        revision: "a3a3ddd".to_string(),
        url: format!("github:owner/{label}"),
    }
}

#[test]
fn merge_collapses_shared_inputs() {
    // project a: root -> {b: nixpkgs (shared), flake-utils}, plus nixpkgs
    let mut la = LockFile::empty();
    la.nodes.insert(
        "root".to_string(),
        node(vec![("b", direct("nixpkgs")), ("flake-utils", direct("flake-utils"))]),
    );
    la.nodes.insert("nixpkgs".to_string(), leaf("nixpkgs"));
    la.nodes.insert("flake-utils".to_string(), leaf("flake-utils"));
    // project b: root with no edges, plus an unreferenced nixpkgs
    let mut lb = LockFile::empty();
    lb.nodes.insert("nixpkgs".to_string(), leaf("nixpkgs"));

    let mut lockfiles = StrMap::new();
    lockfiles.insert("a".to_string(), la);
    lockfiles.insert("b".to_string(), lb);
    let merged = LockFile::merge(lockfiles).unwrap();

    assert_eq!(
        names(&merged),
        vec![
            "a".to_string(),
            "a_flake-utils".to_string(),
            "b".to_string(),
            "root".to_string()
        ]
    );
    // the fresh root points at each project by name
    let root = merged.nodes.get("root").unwrap();
    match root.inputs.as_ref().unwrap().get("a").unwrap() {
        InputRef::Direct(n) => assert_eq!(n, "a"),
        _ => panic!("expected a direct reference"),
    }
    match root.inputs.as_ref().unwrap().get("b").unwrap() {
        InputRef::Direct(n) => assert_eq!(n, "b"),
        _ => panic!("expected a direct reference"),
    }
    // a's shared dependency now resolves to project b's node
    let a = merged.nodes.get("a").unwrap();
    let shared = a.inputs.as_ref().unwrap().get("b").unwrap();
    match shared {
        InputRef::Direct(n) => assert_eq!(n, "b"),
        _ => panic!("expected a direct reference"),
    }
}

#[test]
fn from_metadata_pins_the_project_labels() {
    let mut la = LockFile::empty();
    la.nodes.insert("root".to_string(), node(vec![]));
    let mut lb = LockFile::empty();
    lb.nodes.insert("root".to_string(), node(vec![]));
    let projects = vec![
        ("a".to_string(), metadata_for("a", la)),
        ("b".to_string(), metadata_for("b", lb)),
    ];
    let merged = LockFile::from_metadata(projects).unwrap();
    let a = merged.nodes.get("a").unwrap();
    assert_eq!(a.locked.as_ref().unwrap().repo, Some("a".to_string()));
    assert_eq!(a.original.as_ref().unwrap().repo, Some("a".to_string()));
    let b = merged.nodes.get("b").unwrap();
    assert_eq!(b.locked.as_ref().unwrap().repo, Some("b".to_string()));
    // project labels without locks-root are an error
    let lc = LockFile {
        nodes: StrMap::new(),
        root: "root".to_string(),
        version: 7,
    };
    let bad = vec![("c".to_string(), metadata_for("c", lc))];
    assert!(LockFile::from_metadata(bad).is_err());
}
