use nixspace::codec::Json;
use nixspace::lockfile::{FlakeType, InputRef, InputSpec, LockFile, LockedRef};
use nixspace::strmap::StrMap;

fn sample_lockfile() -> LockFile {
    let mut inputs = StrMap::new();
    inputs.insert("nixpkgs".to_string(), InputRef::Direct("nixpkgs".to_string()));
    inputs.insert(
        "utils".to_string(),
        InputRef::Path(vec!["root".to_string(), "nixpkgs".to_string()]),
    );
    let root = LockedRef { flake: None, locked: None, original: None, inputs: Some(inputs) };
    let pin = InputSpec {
        flake_type: FlakeType::GitHub,
        nar_hash: Some("sha256-abc".to_string()),
        url: None,
        owner: Some("owner".to_string()),
        repo: Some("nixpkgs".to_string()),
        dir: None,
        rev: Some("a3a3ddd".to_string()),
        git_ref: Some("nixpkgs-unstable".to_string()),
        rev_count: Some(12),
        last_modified: Some(1700000000),
    };
    let leaf = LockedRef {
        flake: Some(true),
        locked: Some(pin.duplicate()),
        original: Some(pin),
        inputs: None,
    };
    let mut lf = LockFile::empty();
    lf.nodes.insert("root".to_string(), root);
    lf.nodes.insert("nixpkgs".to_string(), leaf);
    lf
}

fn obj_field<'a>(j: &'a Json, key: &str) -> Option<&'a Json> {
    match j {
        Json::Obj(entries) => entries.iter().find(|(k, _)| k == key).map(|(_, v)| v),
        _ => None,
    }
}

#[test]
fn lockfile_documents_round_trip() {
    let lf = sample_lockfile();
    let doc = lf.to_json();
    let back = LockFile::from_json(&doc).unwrap();
    assert_eq!(back.root, lf.root);
    assert_eq!(back.version, lf.version);
    assert_eq!(back.nodes.len(), lf.nodes.len());
    for i in 0..lf.nodes.len() {
        assert_eq!(back.nodes.key_at(i), lf.nodes.key_at(i));
    }
    let pin = back.get_input_spec("nixpkgs").unwrap();
    assert_eq!(pin.nar_hash, Some("sha256-abc".to_string()));
    assert_eq!(pin.rev, Some("a3a3ddd".to_string()));
    assert_eq!(pin.git_ref, Some("nixpkgs-unstable".to_string()));
    assert_eq!(pin.rev_count, Some(12));
    // the re-encoded document matches field for field
    let doc2 = back.to_json();
    match (&doc, &doc2) {
        (Json::Obj(a), Json::Obj(b)) => assert_eq!(a.len(), b.len()),
        _ => panic!("expected objects"),
    }
}

#[test]
fn absent_fields_are_omitted() {
    let lf = sample_lockfile();
    let doc = lf.to_json();
    let nodes = obj_field(&doc, "nodes").unwrap();
    let root = obj_field(nodes, "root").unwrap();
    // the bare root serializes only its inputs
    assert!(obj_field(root, "locked").is_none());
    assert!(obj_field(root, "original").is_none());
    assert!(obj_field(root, "flake").is_none());
    assert!(obj_field(root, "inputs").is_some());
    // field renames: the pin uses the external names
    let leaf = obj_field(nodes, "nixpkgs").unwrap();
    let locked = obj_field(leaf, "locked").unwrap();
    assert!(obj_field(locked, "narHash").is_some());
    assert!(obj_field(locked, "ref").is_some());
    assert!(obj_field(locked, "revCount").is_some());
    assert!(obj_field(locked, "url").is_none());
    match obj_field(locked, "type") {
        Some(Json::Str(t)) => assert_eq!(t, "github"),
        _ => panic!("expected the type tag"),
    }
}

#[test]
fn malformed_documents_are_rejected() {
    assert!(LockFile::from_json(&Json::Null).is_err());
    assert!(LockFile::from_json(&Json::Obj(vec![])).is_err());
    let bad = Json::Obj(vec![
        ("nodes".to_string(), Json::Obj(vec![])),
        ("root".to_string(), Json::Int(3)),
        ("version".to_string(), Json::Int(7)),
    ]);
    assert!(LockFile::from_json(&bad).is_err());
}
