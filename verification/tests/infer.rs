use nabs::infer::icargo::CargoInfer;
use nabs::infer::protocol::{
    resolve_parent_paths, Infer, InferError, InferredTarget, Next, ParentFailure,
};
use nabs::infer::py_requirements::{get_file_names, PyRequirementsInfer};
use nabs::types::{
    BuildSystemPath, MockRepo, PathFormat, RawTarget, ResolveError, ValidationError,
};

#[test]
fn icargo_test_infer() {
    let us_name = "libs/qsync_stream";
    let toml_str = r#"
        [package]
        name = "test_package"
        version = "0.1.0"

        [dependencies]
        serde = { version = "1.0", path = "../serde" }
        toml = { path = "../toml" }
        yo = { path = "/yours/ha/" }
        hey = "1.2"
        lol = {version = "1"}

        [dev-dependencies]
        anyhow = { path = "../anyhow" }
        fails = {path = "../../../../fails"}
    "#;
    let repo = MockRepo::new(
        vec![(format!("{}/Cargo.toml", us_name), toml_str.to_string())],
        String::new(),
    );
    let inf = CargoInfer::new(repo);
    let infer_result = inf
        .from_raw_target(&RawTarget::from_string_name(us_name.to_string()).unwrap())
        .unwrap();

    assert_eq!(infer_result.what_next, Next::Continue);
    if let InferredTarget::One(single) = infer_result.inferred_target {
        // good, this is what we expect
        assert_eq!(single.target.name_as_string_ref(), us_name);
        let parents: Vec<&String> = single
            .parents
            .iter()
            .map(|p| p.name.to_string_ref())
            .collect();

        compare_vec(
            &parents,
            &vec![
                &"libs/serde".to_string(),
                &"libs/toml".to_string(),
                &"libs/anyhow".to_string(),
            ],
        );

        let failures: Vec<String> = single
            .failed_parents
            .iter()
            .map(|p| p.name.clone())
            .collect();
        compare_vec(
            &failures,
            &vec!["/yours/ha/".to_string(), "../../../../fails".to_string()],
        );
    } else {
        panic!("expected inferred_target to be One variant");
    }
}

#[test]
fn py_requirements_test_infer() {
    let us_name = "libs/qsync_stream";
    let req_str = r#"
        ./../serde
        ./../toml
        requests==1.2.3
        hello @ file://../anyhow
        he  @ file:///yours/truly
        ./../../../invalid_path
        ../../../invalid_path
    "#;
    let repo = MockRepo::new(
        vec![(format!("{}/{}", us_name, "requirements.txt"), req_str.to_string())],
        String::new(),
    );
    let inf = PyRequirementsInfer::new(repo, "requirements.txt".to_string());
    let infer_result = inf
        .from_raw_target(&RawTarget::from_string_name(us_name.to_string()).unwrap())
        .unwrap();

    assert_eq!(infer_result.what_next, Next::Continue);
    if let InferredTarget::One(single) = infer_result.inferred_target {
        // good, this is what we expect
        assert_eq!(single.target.name_as_string_ref(), us_name);
        let parents: Vec<&String> = single
            .parents
            .iter()
            .map(|p| p.name.to_string_ref())
            .collect();

        compare_vec(
            &parents,
            &vec![
                &"libs/serde".to_string(),
                &"libs/toml".to_string(),
                &"libs/anyhow".to_string(),
            ],
        );

        let failed_parents: Vec<String> = single
            .failed_parents
            .iter()
            .map(|p| p.name.to_string())
            .collect();
        compare_vec(
            &failed_parents,
            &vec![
                "/yours/truly".to_string(),
                "./../../../invalid_path".to_string(),
                "../../../invalid_path".to_string(),
            ],
        );
    } else {
        panic!("expected inferred_target to be One variant");
    }
}

fn compare_vec<T: Eq>(want: &Vec<T>, got: &Vec<T>) {
    assert_eq!(want.len(), got.len());
    for v in want {
        assert!(got.contains(v));
    }
}

#[test]
fn cargo_without_manifest_infers_nothing() {
    let repo = MockRepo::new(Vec::new(), String::new());
    let inf = CargoInfer::new(repo);
    let r = inf
        .from_raw_target(&RawTarget::from_string_name("pkg".to_string()).unwrap())
        .unwrap();
    assert!(matches!(r.inferred_target, InferredTarget::Nothing));
    assert_eq!(r.what_next, Next::Continue);
}

#[test]
fn cargo_bad_manifest_text_is_a_parse_error() {
    let repo = MockRepo::new(
        vec![(String::from("pkg/Cargo.toml"), String::from("= not toml ="))],
        String::new(),
    );
    let inf = CargoInfer::new(repo);
    let err = inf
        .from_raw_target(&RawTarget::from_string_name("pkg".to_string()).unwrap())
        .unwrap_err();
    assert!(matches!(err, InferError::ManifestParse(_)));
}

#[test]
fn cargo_unsupported_dependency_shape_is_an_error() {
    let toml_str = "[dependencies]\nweird = 7\n";
    let repo = MockRepo::new(
        vec![(String::from("pkg/Cargo.toml"), toml_str.to_string())],
        String::new(),
    );
    let inf = CargoInfer::new(repo);
    let err = inf
        .from_raw_target(&RawTarget::from_string_name("pkg".to_string()).unwrap())
        .unwrap_err();
    assert_eq!(err, InferError::ManifestShape);
}

#[test]
fn cargo_absolute_path_is_a_failed_parent_not_an_error() {
    let toml_str = "[dependencies]\nabs = { path = \"/abs/path\" }\n";
    let repo = MockRepo::new(
        vec![(String::from("pkg/Cargo.toml"), toml_str.to_string())],
        String::new(),
    );
    let inf = CargoInfer::new(repo);
    let r = inf
        .from_raw_target(&RawTarget::from_string_name("pkg".to_string()).unwrap())
        .unwrap();
    if let InferredTarget::One(single) = r.inferred_target {
        assert!(single.parents.is_empty());
        assert_eq!(single.failed_parents.len(), 1);
        assert_eq!(single.failed_parents[0].name, "/abs/path");
        assert_eq!(single.failed_parents[0].reason, ParentFailure::AbsolutePath);
    } else {
        panic!("expected inferred_target to be One variant");
    }
}

#[test]
fn requirements_scanner_extracts_dot_and_marker_lines() {
    let content = "  ./a\n../b\nrequests==1.0\npkg @ file://../c\nplain line\n";
    assert_eq!(
        get_file_names(content),
        vec!["./a".to_string(), "../b".to_string(), "../c".to_string()]
    );
}

#[test]
fn requirements_scanner_takes_both_paths_from_one_line() {
    // a dot-relative line that also carries a file marker yields both
    let content = "./x @ file://../y\n";
    assert_eq!(
        get_file_names(content),
        vec!["./x @ file://../y".to_string(), "../y".to_string()]
    );
}

#[test]
fn requirements_marker_needs_an_at_sign() {
    let content = "pkg file://../c\n";
    assert_eq!(get_file_names(content), Vec::<String>::new());
}

#[test]
fn declared_paths_sort_into_parents_and_failures() {
    let repo = MockRepo::new(Vec::new(), String::new());
    let us = RawTarget::from_string_name("pkgs/a".to_string()).unwrap();
    let decls = vec![
        BuildSystemPath::new("../b".to_string(), PathFormat::Posix),
        BuildSystemPath::new("/abs".to_string(), PathFormat::Posix),
        BuildSystemPath::new("../../../c".to_string(), PathFormat::Posix),
    ];
    let (parents, failed) = resolve_parent_paths(&repo, &us, &decls);
    assert_eq!(parents.len(), 1);
    assert_eq!(parents[0].name.to_string_ref(), "pkgs/b");
    assert_eq!(failed.len(), 2);
    assert_eq!(failed[0].name, "/abs");
    assert_eq!(failed[0].reason, ParentFailure::AbsolutePath);
    assert_eq!(failed[1].name, "../../../c");
    assert_eq!(
        failed[1].reason,
        ParentFailure::Resolve(ResolveError::EscapesWorkspace)
    );
}

#[test]
fn resolution_failures_can_name_the_broken_rule() {
    let repo = MockRepo::new(Vec::new(), String::new());
    let us = RawTarget::from_string_name("pkgs".to_string()).unwrap();
    // resolving one level up lands on the workspace root itself,
    // whose name is empty and therefore invalid
    let decls = vec![BuildSystemPath::new("..".to_string(), PathFormat::Posix)];
    let (parents, failed) = resolve_parent_paths(&repo, &us, &decls);
    assert!(parents.is_empty());
    assert_eq!(
        failed[0].reason,
        ParentFailure::Resolve(ResolveError::InvalidName(ValidationError::Empty))
    );
}

#[test]
fn requirements_lines_trim_unicode_blanks() {
    // no-break space and em space count as blanks, as str::trim has it
    let content = "\u{a0}./a\u{a0}\n\u{2003}../b \n";
    assert_eq!(get_file_names(content), vec!["./a".to_string(), "../b".to_string()]);
}
