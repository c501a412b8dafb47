use nabs::types::{
    BuildSystemPath, MockRepo, PathFormat, RawTarget, Repository, ResolveError, TargetName,
    ValidationError,
};

#[test]
fn test_resolve_rel_path() {
    let repo = MockRepo::new(Vec::new(), String::from("hey/test"));
    assert_eq!(
        resolve("../qsync_stream", "packages/python/image_manager", &repo)
            .unwrap()
            .to_string_ref(),
        "packages/python/qsync_stream"
    );
    assert!(
        resolve(
            "../../../../qsync_stream",
            "packages/python/image_manager",
            &repo
        )
        .is_err()
    );
    assert_eq!(
        resolve(
            "libs/qsync_stream/../qsync",
            "packages/python/image_manager",
            &repo
        )
        .unwrap()
        .to_string_ref(),
        "packages/python/image_manager/libs/qsync"
    );
}

fn resolve(rel_path: &str, rel_to: &str, repo: &impl Repository) -> Result<TargetName, ResolveError> {
    repo.resolve_rel_path(
        &BuildSystemPath::new(rel_path.to_string(), PathFormat::Posix),
        &RawTarget::from_string_name(rel_to.to_string()).unwrap(),
    )
    .map(|v| v.name)
}

#[test]
fn name_validation_rejects_malformed_names() {
    assert_eq!(
        TargetName::new(String::from("")).unwrap_err(),
        ValidationError::Empty
    );
    assert_eq!(
        TargetName::new(String::from("/abs")).unwrap_err(),
        ValidationError::Absolute
    );
    assert_eq!(
        TargetName::new(String::from("a/../b")).unwrap_err(),
        ValidationError::DotComponent
    );
    assert_eq!(
        TargetName::new(String::from("a/./b")).unwrap_err(),
        ValidationError::DotComponent
    );
    assert_eq!(
        TargetName::new(String::from("a//b")).unwrap_err(),
        ValidationError::EmptyComponent
    );
}

#[test]
fn name_validation_accepts_relative_paths() {
    let name = TargetName::new(String::from("a/b/c")).unwrap();
    assert_eq!(name.to_string_ref(), "a/b/c");
    assert!(TargetName::new(String::from("single")).is_ok());
}

#[test]
fn resolve_named_cases() {
    let repo = MockRepo::new(Vec::new(), String::new());
    assert_eq!(
        resolve("../x", "pkgs/a/b", &repo).unwrap().to_string_ref(),
        "pkgs/a/x"
    );
    assert_eq!(
        resolve("libs/x/../y", "pkgs/a/b", &repo)
            .unwrap()
            .to_string_ref(),
        "pkgs/a/b/libs/y"
    );
}

#[test]
fn resolve_escape_above_root_fails() {
    let repo = MockRepo::new(Vec::new(), String::new());
    assert_eq!(
        resolve("../../../x", "pkgs/a", &repo).unwrap_err(),
        ResolveError::EscapesWorkspace
    );
}

#[test]
fn resolve_rejects_results_that_are_no_canonical_name() {
    let repo = MockRepo::new(Vec::new(), String::new());
    // an absolute manifest path replaces the base entirely, and an
    // absolute path is no canonical name
    assert_eq!(
        resolve("/abs/x", "pkgs/a", &repo).unwrap_err(),
        ResolveError::InvalidName(ValidationError::Absolute)
    );
    // popping back to the root itself leaves the empty name
    assert_eq!(
        resolve("..", "pkgs", &repo).unwrap_err(),
        ResolveError::InvalidName(ValidationError::Empty)
    );
}

#[test]
fn build_system_path_absolute_detection() {
    let abs = BuildSystemPath::new(String::from("/yours/ha/"), PathFormat::Posix);
    assert!(abs.is_absolute());
    let rel = BuildSystemPath::new(String::from("libs/x"), PathFormat::Posix);
    assert!(!rel.is_absolute());
    let empty = BuildSystemPath::new(String::new(), PathFormat::Posix);
    assert!(!empty.is_absolute());
}

#[test]
fn host_path_converts_posix_only_on_windows_hosts() {
    let p = BuildSystemPath::new(String::from("a/b/c"), PathFormat::Posix);
    assert_eq!(p.get_host_path(false), "a/b/c");
    assert_eq!(p.get_host_path(true), "a\\b\\c");
    let h = BuildSystemPath::new(String::from("a/b"), PathFormat::Host);
    assert_eq!(h.get_host_path(true), "a/b");
}

#[test]
fn mock_repo_serves_stored_content() {
    let repo = MockRepo::new(
        vec![(String::from("pkg/file.txt"), String::from("hello"))],
        String::from("root"),
    );
    assert_eq!(repo.get_content("pkg/file.txt"), Some(String::from("hello")));
    assert_eq!(repo.get_content("absent"), None);
    assert_eq!(repo.workspace_root(), "root");
}
