use nabs::commands::{
    build_graph_and_our_targets, changeset_rdeps, get_pkgs_to_search, to_raw_targets,
    validate_and_warn_on_missing_targets, which_pkg,
};
use nabs::infer::InferRunner;
use nabs::types::{MockRepo, Target, TargetName, ValidationError};

fn manifest(deps: &[&str]) -> String {
    let mut s = String::from("[package]\nname = \"x\"\nversion = \"0.1.0\"\n\n[dependencies]\n");
    for d in deps {
        s.push_str(&format!("{} = {{ path = \"../{}\" }}\n", d, d));
    }
    s
}

/// A workspace whose manifests declare the dependency chains
/// `qure_dicom_utils <- qxr <- qxr_reports <- cathode`, `qxr <-
/// cathode`, `qxr <- qureapi`, `qer <- qer_reports <- qureapi`, `qer <-
/// qureapi`, `qure_dicom_utils <- qer`, and separately `qsync_stream <-
/// image_manager`.
fn workspace() -> (MockRepo, Vec<String>) {
    let pkgs: Vec<(&str, Vec<&str>)> = vec![
        ("qure_dicom_utils", vec![]),
        ("qxr", vec!["qure_dicom_utils"]),
        ("qxr_reports", vec!["qxr"]),
        ("cathode", vec!["qxr_reports", "qxr"]),
        ("qer", vec!["qure_dicom_utils"]),
        ("qer_reports", vec!["qer"]),
        ("qureapi", vec!["qxr", "qer", "qer_reports"]),
        ("qsync_stream", vec![]),
        ("image_manager", vec!["qsync_stream"]),
    ];
    let mut table = Vec::new();
    let mut names = Vec::new();
    for (name, deps) in &pkgs {
        table.push((format!("{}/Cargo.toml", name), manifest(deps)));
        names.push(name.to_string());
    }
    (MockRepo::new(table, String::new()), names)
}

fn t(name: &str) -> Target {
    Target::from_string_name(name.to_string(), "cargo".to_string()).unwrap()
}

#[test]
fn end_to_end_changeset_over_manifests() {
    let (repo, pkgs) = workspace();
    let runner = InferRunner::default(&repo);
    let seeds = to_raw_targets(&pkgs).unwrap();

    let changed = vec!["qxr/src/lib.rs".to_string()];
    let (names, misses) = get_pkgs_to_search(&changed, &pkgs).unwrap();
    assert!(misses.is_empty());
    assert_eq!(names.len(), 1);

    let plan = build_graph_and_our_targets(&runner, seeds, &names).unwrap();
    assert!(plan.warnings.is_empty());
    assert!(plan.missing.is_empty());
    let res = changeset_rdeps(&plan);
    assert_eq!(res.len(), 4);
    assert!(res.contains(&t("qxr")));
    assert!(res.contains(&t("qxr_reports")));
    assert!(res.contains(&t("cathode")));
    assert!(res.contains(&t("qureapi")));
}

#[test]
fn end_to_end_changeset_of_qer() {
    let (repo, pkgs) = workspace();
    let runner = InferRunner::default(&repo);
    let seeds = to_raw_targets(&pkgs).unwrap();
    let changed = vec!["qer/Cargo.toml".to_string()];
    let (names, _) = get_pkgs_to_search(&changed, &pkgs).unwrap();
    let plan = build_graph_and_our_targets(&runner, seeds, &names).unwrap();
    let res = changeset_rdeps(&plan);
    assert_eq!(res.len(), 3);
    assert!(res.contains(&t("qer")));
    assert!(res.contains(&t("qer_reports")));
    assert!(res.contains(&t("qureapi")));
}

#[test]
fn end_to_end_changeset_of_disconnected_pair() {
    let (repo, pkgs) = workspace();
    let runner = InferRunner::default(&repo);
    let seeds = to_raw_targets(&pkgs).unwrap();
    let changed = vec!["qsync_stream/main.py".to_string()];
    let (names, _) = get_pkgs_to_search(&changed, &pkgs).unwrap();
    let plan = build_graph_and_our_targets(&runner, seeds, &names).unwrap();
    let res = changeset_rdeps(&plan);
    assert_eq!(res.len(), 2);
    assert!(res.contains(&t("qsync_stream")));
    assert!(res.contains(&t("image_manager")));
}

#[test]
fn which_pkg_walks_up_to_the_owning_package() {
    let pkgs = vec!["a/b".to_string(), "c".to_string()];
    assert_eq!(
        which_pkg(&"a/b/src/deep/file.rs".to_string(), &pkgs),
        Some("a/b".to_string())
    );
    assert_eq!(which_pkg(&"c".to_string(), &pkgs), Some("c".to_string()));
    assert_eq!(which_pkg(&"elsewhere/file.rs".to_string(), &pkgs), None);
}

#[test]
fn pkgs_to_search_warns_on_unowned_files_and_dedups() {
    let pkgs = vec!["a/b".to_string()];
    let files = vec![
        "a/b/one.rs".to_string(),
        "a/b/two.rs".to_string(),
        "outside/file.rs".to_string(),
    ];
    let (names, misses) = get_pkgs_to_search(&files, &pkgs).unwrap();
    assert_eq!(names.len(), 1);
    assert_eq!(names[0].to_string_ref(), "a/b");
    assert_eq!(misses, vec!["outside/file.rs".to_string()]);
}

#[test]
fn to_raw_targets_rejects_invalid_package_paths() {
    let err = to_raw_targets(&vec!["ok".to_string(), "/bad".to_string()]).unwrap_err();
    assert_eq!(err, ValidationError::Absolute);
}

#[test]
fn missing_targets_are_named_after_filtering() {
    let search = vec![
        TargetName::new("kept".to_string()).unwrap(),
        TargetName::new("gone".to_string()).unwrap(),
    ];
    let ours = vec![t("kept")];
    let missing = validate_and_warn_on_missing_targets(&ours, &search);
    assert_eq!(missing.len(), 1);
    assert_eq!(missing[0].to_string_ref(), "gone");

    // with equal counts the scan is skipped and nothing is reported
    let both = vec![t("kept"), t("gone")];
    assert!(validate_and_warn_on_missing_targets(&both, &search).is_empty());
}

#[test]
fn target_renders_as_name_and_flavor() {
    assert_eq!(t("pkgs/a").render(), "pkgs/a:cargo");
}
