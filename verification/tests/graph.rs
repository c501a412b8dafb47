use nabs::graph::{GraphError, TargetGraph};
use nabs::types::Target;

fn t(name: &str, flavor: &str) -> Target {
    Target::from_string_name(String::from(name), String::from(flavor)).unwrap()
}

#[test]
fn test_rdeps() {
    let mut g = TargetGraph::new();

    // atleast create a reasonably big transitive graph

    let qsync_stream =
        Target::from_string_name(String::from("qsync_stream"), String::from("cargo")).unwrap();
    let image_manager =
        Target::from_string_name(String::from("image_manager"), String::from("cargo")).unwrap();
    let qure_dicom_utils =
        Target::from_string_name(String::from("qure_dicom_utils"), String::from("cargo")).unwrap();
    let qxr = Target::from_string_name(String::from("qxr"), String::from("cargo")).unwrap();
    let qxr_reports =
        Target::from_string_name(String::from("qxr_reports"), String::from("cargo")).unwrap();
    let qer = Target::from_string_name(String::from("qer"), String::from("cargo")).unwrap();
    let qer_reports =
        Target::from_string_name(String::from("qer_reports"), String::from("cargo")).unwrap();
    let qureapi = Target::from_string_name(String::from("qureapi"), String::from("cargo")).unwrap();
    let cathode = Target::from_string_name(String::from("cathode"), String::from("cargo")).unwrap();

    g.add_node(image_manager.clone());
    g.add_node(qsync_stream.clone());
    g.add_node(qure_dicom_utils.clone());
    g.add_node(qxr.clone());
    g.add_node(qxr_reports.clone());
    g.add_node(qer.clone());
    g.add_node(qer_reports.clone());
    g.add_node(qureapi.clone());
    g.add_node(cathode.clone());

    // qsync_stream -> image_manager
    g.add_edge(&qsync_stream, &image_manager).unwrap();

    // qxr -> qxr_reports -> cathode
    // qxr -> cathode
    // qxr -> qureapi
    g.add_edge(&qxr, &qxr_reports).unwrap();
    g.add_edge(&qxr_reports, &cathode).unwrap();
    g.add_edge(&qxr, &cathode).unwrap();
    g.add_edge(&qxr, &qureapi).unwrap();

    // qer -> qer_reports -> qureapi
    // qer -> qureapi
    g.add_edge(&qer, &qer_reports).unwrap();
    g.add_edge(&qer_reports, &qureapi).unwrap();
    g.add_edge(&qer, &qureapi).unwrap();

    // qure_dicom_utils -> qxr
    // qure_dicom_utils -> qer
    g.add_edge(&qure_dicom_utils, &qxr).unwrap();
    g.add_edge(&qure_dicom_utils, &qer).unwrap();

    let res = g.rdeps(&vec![qxr.clone()]).unwrap();
    assert!(res.contains(&qureapi));
    assert!(res.contains(&qxr));
    assert!(res.contains(&qxr_reports));
    assert!(res.contains(&cathode));
    assert_eq!(res.len(), 4);

    // this graph does not contain any qxr specific stuff
    let res = g.rdeps(&vec![qer.clone()]).unwrap();
    assert!(res.contains(&qureapi));
    assert!(res.contains(&qer));
    assert!(res.contains(&qer_reports));
    assert_eq!(res.len(), 3);

    // totally different graph
    let res = g.rdeps(&vec![qsync_stream.clone()]).unwrap();
    assert!(res.contains(&qsync_stream));
    assert!(res.contains(&image_manager));
    assert_eq!(res.len(), 2);
}

#[test]
fn add_node_twice_keeps_counts() {
    let mut g = TargetGraph::new();
    g.add_node(t("a", "cargo"));
    g.add_node(t("b", "cargo"));
    assert_eq!(g.nodes.len(), 2);
    g.add_node(t("a", "cargo"));
    assert_eq!(g.nodes.len(), 2);
    assert_eq!(g.edges.len(), 0);
}

#[test]
fn add_edge_twice_keeps_counts() {
    let mut g = TargetGraph::new();
    g.add_node(t("a", "cargo"));
    g.add_node(t("b", "cargo"));
    g.add_edge(&t("a", "cargo"), &t("b", "cargo")).unwrap();
    assert_eq!(g.edges.len(), 1);
    g.add_edge(&t("a", "cargo"), &t("b", "cargo")).unwrap();
    assert_eq!(g.edges.len(), 1);
    assert_eq!(g.nodes.len(), 2);
}

#[test]
fn same_name_distinct_flavors_are_distinct_nodes() {
    let mut g = TargetGraph::new();
    g.add_node(t("a", "cargo"));
    g.add_node(t("a", "python_requirements"));
    assert_eq!(g.nodes.len(), 2);
    assert!(g.contains_node(&t("a", "cargo")));
    assert!(g.contains_node(&t("a", "python_requirements")));
    assert!(!g.contains_node(&t("a", "poetry")));
}

#[test]
fn rdeps_closure_includes_starts() {
    // A -> B -> C and A -> C
    let mut g = TargetGraph::new();
    g.add_node(t("a", "f"));
    g.add_node(t("b", "f"));
    g.add_node(t("c", "f"));
    g.add_edge(&t("a", "f"), &t("b", "f")).unwrap();
    g.add_edge(&t("b", "f"), &t("c", "f")).unwrap();
    g.add_edge(&t("a", "f"), &t("c", "f")).unwrap();
    let res = g.rdeps(&vec![t("a", "f")]).unwrap();
    assert_eq!(res.len(), 3);
    assert!(res.contains(&t("a", "f")));
    assert!(res.contains(&t("b", "f")));
    assert!(res.contains(&t("c", "f")));
}

#[test]
fn rdeps_of_node_without_dependents_is_itself() {
    let mut g = TargetGraph::new();
    g.add_node(t("a", "f"));
    g.add_node(t("b", "f"));
    g.add_edge(&t("a", "f"), &t("b", "f")).unwrap();
    // b has no outgoing edges: nothing depends on it
    let res = g.rdeps(&vec![t("b", "f")]).unwrap();
    assert_eq!(res, vec![t("b", "f")]);
}

#[test]
fn rdeps_multi_source_visits_each_node_once() {
    let mut g = TargetGraph::new();
    g.add_node(t("a", "f"));
    g.add_node(t("b", "f"));
    g.add_node(t("c", "f"));
    g.add_edge(&t("a", "f"), &t("c", "f")).unwrap();
    g.add_edge(&t("b", "f"), &t("c", "f")).unwrap();
    let res = g.rdeps(&vec![t("a", "f"), t("b", "f")]).unwrap();
    assert_eq!(res.len(), 3);
}

#[test]
fn rdeps_fails_on_absent_start() {
    let mut g = TargetGraph::new();
    g.add_node(t("a", "f"));
    let res = g.rdeps(&vec![t("zzz", "f")]);
    assert_eq!(res.unwrap_err(), GraphError::NodeMissing);
}

#[test]
fn add_edge_fails_on_absent_node() {
    let mut g = TargetGraph::new();
    g.add_node(t("a", "f"));
    let res = g.add_edge(&t("a", "f"), &t("zzz", "f"));
    assert_eq!(res.unwrap_err(), GraphError::NodeMissing);
    assert_eq!(g.edges.len(), 0);
}

#[test]
fn neighbors_lists_direct_successors_only() {
    let mut g = TargetGraph::new();
    g.add_node(t("a", "f"));
    g.add_node(t("b", "f"));
    g.add_node(t("c", "f"));
    g.add_edge(&t("a", "f"), &t("b", "f")).unwrap();
    g.add_edge(&t("b", "f"), &t("c", "f")).unwrap();
    let ns = g.neighbors(&t("a", "f")).unwrap();
    assert_eq!(ns, vec![t("b", "f")]);
    assert!(g.neighbors(&t("zzz", "f")).is_err());
}

#[test]
fn render_lists_nodes_with_their_neighbors() {
    let mut g = TargetGraph::new();
    g.add_node(t("a", "cargo"));
    g.add_node(t("b", "cargo"));
    g.add_node(t("c", "cargo"));
    g.add_edge(&t("a", "cargo"), &t("b", "cargo")).unwrap();
    g.add_edge(&t("a", "cargo"), &t("c", "cargo")).unwrap();
    let rendered = g.render();
    assert_eq!(
        rendered,
        "a:cargo -> [b:cargo, c:cargo]\nb:cargo -> []\nc:cargo -> []\n"
    );
}
