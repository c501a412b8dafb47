use std::collections::HashMap;

use nabs::graph::TargetGraph;
use nabs::infer::protocol::{Infer, InferError, InferResult, InferredTarget, Next, Single};
use nabs::infer::InferRunner;
use nabs::types::{RawTarget, Target};

struct Dep {
    ps: Vec<RawTarget>,
    flavors: Vec<String>,
}

struct MockInfer {
    n_by_deps: HashMap<String, Dep>,
}

impl Infer for MockInfer {
    fn from_raw_target(&self, t: &RawTarget) -> Result<InferResult, InferError> {
        let deps = self.n_by_deps.get(t.name.to_string_ref());
        match deps {
            None => Ok(InferResult {
                inferred_target: InferredTarget::Nothing,
                what_next: Next::Continue,
            }),
            Some(deps) => {
                if deps.flavors.len() == 1 {
                    Ok(InferResult {
                        inferred_target: InferredTarget::One(Single {
                            target: Target::new(t.name.clone(), deps.flavors[0].clone()),
                            parents: deps.ps.clone(),
                            failed_parents: vec![],
                        }),
                        what_next: Next::Continue,
                    })
                } else {
                    let targets = deps
                        .flavors
                        .iter()
                        .map(|f| Single {
                            target: Target::new(t.name.clone(), f.clone()),
                            parents: deps.ps.clone(),
                            failed_parents: vec![],
                        })
                        .collect();

                    Ok(InferResult {
                        inferred_target: InferredTarget::Many(targets),
                        what_next: Next::Break,
                    })
                }
            }
        }
    }
}

#[test]
fn test_runner() {
    let infs: Vec<MockInfer> = vec![get_infer_1(), get_infer_2()];
    let runner = InferRunner::new(infs);
    let start = vec![RawTarget::from_string_name("qureapi".to_string()).unwrap()];
    let (graph, _, _) = runner.build_graph(start).unwrap();
    compare(
        &graph,
        "qure_dicom_utils",
        "cargo",
        vec![("qer", "cargo"), ("qxr", "cargo")],
    );
    compare(
        &graph,
        "qer",
        "cargo",
        vec![("qer_reports", "cargo"), ("qureapi", "cargo")],
    );
    compare(&graph, "qxr", "cargo", vec![("qureapi", "cargo")]);
    compare(&graph, "qureapi", "cargo", vec![]);
    compare(&graph, "qer_reports", "cargo", vec![("qureapi", "cargo")]);

    let start = vec![RawTarget::from_string_name("image_manager".to_string()).unwrap()];
    let (graph, _, _) = runner.build_graph(start).unwrap();
    compare(
        &graph,
        "qsync_stream",
        "cargo",
        vec![("image_manager", "python")],
    );
    compare(
        &graph,
        "qsync_stream",
        "python",
        vec![("image_manager", "python")],
    );
    compare(&graph, "image_manager", "python", vec![]);
}

fn compare(graph: &TargetGraph, name: &str, flavor: &str, want: Vec<(&str, &str)>) {
    let ns = graph
        .neighbors(&Target::from_string_name(name.to_string(), flavor.to_string()).unwrap())
        .unwrap();
    let got: Vec<(&String, &String)> = ns
        .iter()
        .map(|t| (t.name_as_string_ref(), &t.flavor))
        .collect();
    assert_eq!(got.len(), want.len());
    for v in &want {
        assert!(want.contains(&v));
    }
}

fn get_infer_2() -> MockInfer {
    let mut n_by_deps: HashMap<String, Dep> = HashMap::new();
    n_by_deps.insert(
        "image_manager".to_string(),
        Dep {
            ps: vec![RawTarget::from_string_name("qsync_stream".to_string()).unwrap()],
            flavors: vec!["python".to_string()],
        },
    );
    n_by_deps.insert(
        "qsync_stream".to_string(),
        Dep {
            ps: vec![],
            flavors: vec!["python".to_string(), "cargo".to_string()],
        },
    );
    MockInfer { n_by_deps }
}

fn get_infer_1() -> MockInfer {
    let n_by_deps = HashMap::from([
        (
            "qureapi".to_string(),
            vec![
                RawTarget::from_string_name("qxr".to_string()).unwrap(),
                RawTarget::from_string_name("qer".to_string()).unwrap(),
                RawTarget::from_string_name("qer_reports".to_string()).unwrap(),
            ],
        ),
        (
            "cathode".to_string(),
            vec![
                RawTarget::from_string_name("qxr".to_string()).unwrap(),
                RawTarget::from_string_name("qxr_reports".to_string()).unwrap(),
            ],
        ),
        (
            "qxr".to_string(),
            vec![RawTarget::from_string_name("qure_dicom_utils".to_string()).unwrap()],
        ),
        (
            "qxr_reports".to_string(),
            vec![RawTarget::from_string_name("qxr".to_string()).unwrap()],
        ),
        (
            "qer".to_string(),
            vec![RawTarget::from_string_name("qure_dicom_utils".to_string()).unwrap()],
        ),
        (
            "qer_reports".to_string(),
            vec![RawTarget::from_string_name("qer".to_string()).unwrap()],
        ),
        ("qure_dicom_utils".to_string(), vec![]),
    ]);
    let n_by_deps = n_by_deps
        .into_iter()
        .map(|(k, v)| {
            (
                k,
                Dep {
                    ps: v,
                    flavors: vec!["cargo".to_string()],
                },
            )
        })
        .collect();
    MockInfer { n_by_deps }
}

fn raw(name: &str) -> RawTarget {
    RawTarget::from_string_name(name.to_string()).unwrap()
}

#[test]
fn zero_matching_plugins_is_a_fatal_absence() {
    let runner = InferRunner::new(vec![MockInfer {
        n_by_deps: HashMap::new(),
    }]);
    let err = runner.run_inf(&raw("unknown_pkg")).unwrap_err();
    assert_eq!(err, InferError::NoMatch("unknown_pkg".to_string()));
    assert!(runner.build_graph(vec![raw("unknown_pkg")]).is_err());
}

#[test]
fn two_matching_plugins_is_a_fatal_ambiguity() {
    let mut deps_a: HashMap<String, Dep> = HashMap::new();
    deps_a.insert(
        "pkg".to_string(),
        Dep {
            ps: vec![],
            flavors: vec!["cargo".to_string()],
        },
    );
    let mut deps_b: HashMap<String, Dep> = HashMap::new();
    deps_b.insert(
        "pkg".to_string(),
        Dep {
            ps: vec![],
            flavors: vec!["python".to_string()],
        },
    );
    let runner = InferRunner::new(vec![
        MockInfer { n_by_deps: deps_a },
        MockInfer { n_by_deps: deps_b },
    ]);
    let err = runner.run_inf(&raw("pkg")).unwrap_err();
    assert_eq!(err, InferError::Ambiguous("pkg".to_string()));
}

#[test]
fn many_with_break_stops_the_pipeline() {
    // the first plugin claims two flavors and breaks; a second plugin
    // that would also match is never consulted, so this is no
    // ambiguity, and both flavors become nodes with the same parents
    let mut deps_many: HashMap<String, Dep> = HashMap::new();
    deps_many.insert(
        "pkg".to_string(),
        Dep {
            ps: vec![raw("parent_pkg")],
            flavors: vec!["cargo".to_string(), "python".to_string()],
        },
    );
    deps_many.insert(
        "parent_pkg".to_string(),
        Dep {
            ps: vec![],
            flavors: vec!["cargo".to_string()],
        },
    );
    let mut deps_other: HashMap<String, Dep> = HashMap::new();
    deps_other.insert(
        "pkg".to_string(),
        Dep {
            ps: vec![],
            flavors: vec!["poetry".to_string()],
        },
    );
    let runner = InferRunner::new(vec![
        MockInfer { n_by_deps: deps_many },
        MockInfer { n_by_deps: deps_other },
    ]);
    let singles = runner.run_inf(&raw("pkg")).unwrap();
    assert_eq!(singles.len(), 2);

    let (graph, ours, warnings) = runner.build_graph(vec![raw("pkg")]).unwrap();
    assert!(warnings.is_empty());
    assert_eq!(ours.len(), 2);
    let c = Target::from_string_name("pkg".to_string(), "cargo".to_string()).unwrap();
    let p = Target::from_string_name("pkg".to_string(), "python".to_string()).unwrap();
    let parent = Target::from_string_name("parent_pkg".to_string(), "cargo".to_string()).unwrap();
    assert!(graph.contains_node(&c));
    assert!(graph.contains_node(&p));
    let ns = graph.neighbors(&parent).unwrap();
    assert_eq!(ns.len(), 2);
    assert!(ns.contains(&c));
    assert!(ns.contains(&p));
}

#[test]
fn failing_parent_only_warns() {
    // pkg declares a parent that no plugin recognizes: the parent and
    // its edge are skipped with a warning, the rest is kept
    let mut deps: HashMap<String, Dep> = HashMap::new();
    deps.insert(
        "pkg".to_string(),
        Dep {
            ps: vec![raw("ghost_pkg")],
            flavors: vec!["cargo".to_string()],
        },
    );
    let runner = InferRunner::new(vec![MockInfer { n_by_deps: deps }]);
    let (graph, ours, warnings) = runner.build_graph(vec![raw("pkg")]).unwrap();
    assert_eq!(ours.len(), 1);
    assert_eq!(graph.nodes.len(), 1);
    assert_eq!(warnings.len(), 1);
    assert_eq!(warnings[0].package, "ghost_pkg");
    assert_eq!(warnings[0].reason, InferError::NoMatch("ghost_pkg".to_string()));
}

#[test]
fn dependency_cycles_terminate() {
    let mut deps: HashMap<String, Dep> = HashMap::new();
    deps.insert(
        "a".to_string(),
        Dep {
            ps: vec![raw("b")],
            flavors: vec!["cargo".to_string()],
        },
    );
    deps.insert(
        "b".to_string(),
        Dep {
            ps: vec![raw("a")],
            flavors: vec!["cargo".to_string()],
        },
    );
    let runner = InferRunner::new(vec![MockInfer { n_by_deps: deps }]);
    let (graph, _, warnings) = runner.build_graph(vec![raw("a")]).unwrap();
    assert!(warnings.is_empty());
    assert_eq!(graph.nodes.len(), 2);
    assert_eq!(graph.edges.len(), 2);
}
