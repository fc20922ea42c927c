use nixspace::flake::{parse, FlakeError};
use nixspace::lockfile::FlakeType;

#[test]
fn test_it_parses_flake_indirect() {
    let url1 = "flake:nixpkgs/nixpkgs-unstable/a3a3dda3bacf61e8a39258a0ed9c924eeca8e293";
    let ref1 = parse(url1).unwrap();
    assert_eq!(ref1.flake_url().as_str(), url1);
    assert_eq!(ref1.flake_type(), FlakeType::Indirect);
    assert_eq!(ref1.arg("ref"), Some("nixpkgs-unstable".to_string()));
    assert_eq!(
        ref1.arg("rev"),
        Some("a3a3dda3bacf61e8a39258a0ed9c924eeca8e293".to_string())
    );

    let url2 = "flake:nixpkgs/nixpkgs-unstable";
    let ref2 = parse(url2).unwrap();
    assert_eq!(ref2.flake_url().as_str(), url2);
    assert_eq!(ref2.flake_type(), FlakeType::Indirect);
    assert_eq!(ref2.arg("ref"), Some("nixpkgs-unstable".to_string()));
    assert_eq!(ref2.arg("rev"), None);

    let url3 = "flake:nixpkgs";
    let ref3 = parse(url3).unwrap();
    assert_eq!(ref3.flake_url().as_str(), url3);
    assert_eq!(ref3.flake_type(), FlakeType::Indirect);
    assert_eq!(ref3.arg("ref"), None);
    assert_eq!(ref3.arg("rev"), None);
}

#[test]
fn test_it_parses_flake_path() {
    let url1 = "path:./test/path?dir=subdir";
    let ref1 = parse(url1).unwrap();
    assert_eq!(ref1.flake_url().as_str(), url1);
    assert_eq!(ref1.flake_type(), FlakeType::Path);
    assert_eq!(ref1.arg("dir"), Some("subdir".to_string()));

    let url2 = "path:./test";
    let ref2 = parse(url2).unwrap();
    assert_eq!(ref2.flake_url().as_str(), url2);
    assert_eq!(ref2.flake_type(), FlakeType::Path);
    assert_eq!(ref2.arg("dir"), None);
}

#[test]
fn test_it_parses_git_url() {
    let url1 = "git+https://github.com/chadac/nixspace?rev=a3a3ddd";
    let ref1 = parse(url1).unwrap();
    assert_eq!(ref1.flake_url().as_str(), url1);
    assert_eq!(ref1.flake_type(), FlakeType::Git);
    assert_eq!(
        ref1.git_remote_url(),
        Some("https://github.com/chadac/nixspace".to_string())
    );
    assert_eq!(ref1.arg("rev"), Some("a3a3ddd".to_string()));

    let url2 = "git+ssh://github.com/chadac/nixspace";
    let ref2 = parse(url2).unwrap();
    assert_eq!(ref2.flake_url().as_str(), url2);
    assert_eq!(ref2.flake_type(), FlakeType::Git);
    assert_eq!(
        ref2.git_remote_url(),
        Some("ssh://github.com/chadac/nixspace".to_string())
    );
    assert_eq!(ref2.arg("rev"), None);

    let url3 = "git+file:/share/repo";
    let ref3 = parse(url3).unwrap();
    assert_eq!(ref3.flake_url().as_str(), url3);
    assert_eq!(ref3.flake_type(), FlakeType::Git);
    assert_eq!(ref3.git_remote_url(), Some("file:/share/repo".to_string()));
}

#[test]
fn test_it_parses_mercurial_url() {
    let url1 = "mc+https://github.com/chadac/nixspace?rev=a3a3ddd";
    let ref1 = parse(url1).unwrap();
    assert_eq!(ref1.flake_url().as_str(), url1);
    assert_eq!(ref1.flake_type(), FlakeType::Mercurial);
    assert_eq!(ref1.arg("rev"), Some("a3a3ddd".to_string()));

    let url2 = "mc+ssh://github.com/chadac/nixspace";
    let ref2 = parse(url2).unwrap();
    assert_eq!(ref2.flake_url().as_str(), url2);
    assert_eq!(ref2.flake_type(), FlakeType::Mercurial);
    assert_eq!(ref2.arg("rev"), None);

    let url3 = "mc+file:/share/repo";
    let ref3 = parse(url3).unwrap();
    assert_eq!(ref3.flake_url().as_str(), url3);
    assert_eq!(ref3.flake_type(), FlakeType::Mercurial);
}

#[test]
fn test_it_parses_github_url() {
    let url1 = "github:chadac/dotfiles/nix-config";
    let ref1 = parse(url1).unwrap();
    assert_eq!(ref1.flake_url().as_str(), url1);
    assert_eq!(ref1.flake_type(), FlakeType::GitHub);
    assert_eq!(
        ref1.git_remote_url(),
        Some("https://github.com/chadac/dotfiles.git".to_string())
    );
    assert_eq!(ref1.arg("owner"), Some("chadac".to_string()));
    assert_eq!(ref1.arg("repo"), Some("dotfiles".to_string()));
    assert_eq!(ref1.arg("rev_or_ref"), Some("nix-config".to_string()));
}

#[test]
fn parses_tarball_url() {
    let url = "tarball+https://example.org/src.tar.gz";
    let r = parse(url).unwrap();
    assert_eq!(r.flake_url().as_str(), url);
    assert_eq!(r.flake_type(), FlakeType::Tarball);
    assert_eq!(r.git_remote_url(), None);
    assert_eq!(r.arg("rev"), None);
}

#[test]
fn parses_gitlab_and_sourcehut() {
    let r = parse("gitlab:group/proj").unwrap();
    assert_eq!(r.flake_type(), FlakeType::GitLab);
    assert_eq!(
        r.git_remote_url(),
        Some("https://gitlab.com/group/proj.git".to_string())
    );
    let r = parse("sourcehut:user/proj").unwrap();
    assert_eq!(r.flake_type(), FlakeType::SourceHut);
    assert_eq!(
        r.git_remote_url(),
        Some("https://git.sr.ht/~user/proj.git".to_string())
    );
}

#[test]
fn unknown_scheme_is_rejected() {
    assert!(matches!(parse("bogus:whatever"), Err(FlakeError::UnknownScheme)));
    assert!(matches!(parse("no-colon-at-all"), Err(FlakeError::BadReference)));
    assert!(matches!(parse("flake:"), Err(FlakeError::BadReference)));
    assert!(matches!(parse("path:?a=1"), Err(FlakeError::BadReference)));
}

#[test]
fn empty_params_print_no_question_mark() {
    // round-tripping a parameterless URL never introduces a `?`
    for url in ["path:./p", "git+https://host/repo", "github:owner/repo"] {
        let printed = parse(url).unwrap().flake_url();
        assert!(!printed.contains('?'));
        assert_eq!(printed.as_str(), url);
    }
}

#[test]
fn with_rev_pins_the_reference() {
    let r = parse("github:owner/repo").unwrap();
    let pinned = r.with_rev("a3a3ddd");
    assert_eq!(pinned.flake_url().as_str(), "github:owner/repo/a3a3ddd");
    let g = parse("git+https://host/repo?ref=main").unwrap();
    let pinned = g.with_rev("a3a3ddd");
    assert_eq!(
        pinned.flake_url().as_str(),
        "git+https://host/repo?ref=main&rev=a3a3ddd"
    );
    assert_eq!(pinned.arg("rev"), Some("a3a3ddd".to_string()));
}

#[test]
fn input_spec_projects_the_reference() {
    let r = parse("github:chadac/dotfiles/nix-config").unwrap();
    let spec = r.input_spec();
    assert_eq!(spec.flake_type, FlakeType::GitHub);
    assert_eq!(spec.url, Some("github:chadac/dotfiles/nix-config".to_string()));
    assert_eq!(spec.owner, Some("chadac".to_string()));
    assert_eq!(spec.repo, Some("dotfiles".to_string()));
    assert_eq!(spec.rev, None);
    assert_eq!(spec.nar_hash, None);
    let name = r.infer_name();
    assert_eq!(name, Some("dotfiles".to_string()));
}

#[test]
fn test_git_https() {
    // a git-over-https reference with the canonical server path
    let url = "git+https://github.com/chadac/project-a";
    let r = parse(url).unwrap();
    assert_eq!(r.flake_type(), FlakeType::Git);
    let spec = r.input_spec();
    assert_eq!(spec.url, Some(url.to_string()));
    assert_eq!(spec.rev, None);
    assert_eq!(spec.nar_hash, None);
    assert_eq!(spec.owner, None);
    assert_eq!(spec.repo, None);
}
