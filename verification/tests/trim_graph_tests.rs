use trim_graph::aggregate::get_nodes_edges;
use trim_graph::decode::{get_nodes_edges_from_path, get_nodes_edges_from_walk};
use trim_graph::elements::{flatten_into_hashset, Edge, Edges, Nodes};
use trim_graph::filter::{filter_edges, filter_segments, get_paths};
use trim_graph::pipeline::trim_graph;
use trim_graph::GraphError;

fn node_set(ids: &[&str]) -> Nodes {
    let mut s = Nodes::new();
    for id in ids {
        s.insert_item(id.to_string());
    }
    s
}

fn edge(a: &str, ao: bool, b: &str, bo: bool) -> Edge {
    ((a.to_string(), ao), (b.to_string(), bo))
}

fn edge_set(es: Vec<Edge>) -> Edges {
    let mut s = Edges::new();
    for e in es {
        s.insert_item(e);
    }
    s
}

#[test]
fn test_get_paths() {
    let paths = vec!["P\tp1\t1+, 2-, 3+", "P\tp2\t2+, 4-", "P\tp3\t5-, 3-, 1+"];
    let paths_to_keep = vec!["p2".to_string(), "p3".to_string()];
    let calculated = get_paths(paths, paths_to_keep).unwrap();
    let expected = vec!["P\tp2\t2+, 4-".to_string(), "P\tp3\t5-, 3-, 1+".to_string()];
    assert_eq!(calculated, expected);
}

#[test]
fn test_get_nodes_edges_from_path_nodes() {
    let path = "1+, 2-, 3+";
    let mut expected = vec!["1".to_string(), "2".to_string(), "3".to_string()];
    let (mut calculated, _, _) = get_nodes_edges_from_path(path).unwrap();
    calculated.sort();
    expected.sort();
    assert_eq!(calculated, expected);
}

#[test]
fn test_get_nodes_edges_from_path_links() {
    let path = "1+, 2-; 3+, 2+";
    let mut expected = vec![
        (("1".to_string(), true), ("2".to_string(), false)),
        (("3".to_string(), true), ("2".to_string(), true)),
    ];
    let (_, mut calculated, _) = get_nodes_edges_from_path(path).unwrap();
    calculated.sort();
    expected.sort();
    assert_eq!(calculated, expected);
}

#[test]
fn test_get_nodes_edges_from_path_jumps() {
    let path = "1+; 2-, 3+; 2+";
    let mut expected = vec![
        (("1".to_string(), true), ("2".to_string(), false)),
        (("3".to_string(), true), ("2".to_string(), true)),
    ];
    let (_, _, mut calculated) = get_nodes_edges_from_path(path).unwrap();
    calculated.sort();
    expected.sort();
    assert_eq!(calculated, expected);
}

#[test]
fn test_get_node_edges_for_paths() {
    let paths = vec!["P\tp1\t1+, 2-; 3+".to_string(), "P\tp2\t2+, 4-".to_string()];
    let (nodes, links, jumps) = get_nodes_edges(&paths, &Vec::new()).unwrap();
    assert_eq!(nodes.len(), 4);
    for id in ["1", "2", "3", "4"] {
        assert!(nodes.contains_item(&id.to_string()));
    }
    assert_eq!(links.len(), 2);
    assert!(links.contains_item(&edge("1", true, "2", false)));
    assert!(links.contains_item(&edge("2", true, "4", false)));
    assert_eq!(jumps.len(), 1);
    assert!(jumps.contains_item(&edge("2", false, "3", true)));
}

#[test]
fn test_get_nodes_edges_from_walk_nodes() {
    let walk = ">1<2>3";
    let mut expected = vec!["1".to_string(), "2".to_string(), "3".to_string()];
    let (mut calculated, _) = get_nodes_edges_from_walk(walk).unwrap();
    expected.sort();
    calculated.sort();
    assert_eq!(calculated, expected);
}

#[test]
fn test_get_nodes_edges_from_walk_links() {
    let walk = ">1<2>3";
    let mut expected = vec![
        (("1".to_string(), true), ("2".to_string(), false)),
        (("2".to_string(), false), ("3".to_string(), true)),
    ];
    let (_, mut calculated) = get_nodes_edges_from_walk(walk).unwrap();
    expected.sort();
    calculated.sort();
    assert_eq!(calculated, expected);
}

#[test]
fn test_get_nodes_edges_for_walks() {
    let walks = vec![
        "W\tNA12878\t1\tchr1\t0\t11\t>1<2>3".to_string(),
        "W\tNA12878\t1\tchr1\t0\t11\t>2<4".to_string(),
    ];
    let (nodes, links, jumps) = get_nodes_edges(&Vec::new(), &walks).unwrap();
    assert_eq!(nodes.len(), 4);
    for id in ["1", "2", "3", "4"] {
        assert!(nodes.contains_item(&id.to_string()));
    }
    assert_eq!(links.len(), 3);
    assert!(links.contains_item(&edge("1", true, "2", false)));
    assert!(links.contains_item(&edge("2", false, "3", true)));
    assert!(links.contains_item(&edge("2", true, "4", false)));
    assert_eq!(jumps.len(), 0);
}

#[test]
fn test_flatten_into_hashset() {
    let v: Vec<Vec<u64>> = vec![vec![1, 2, 3], vec![2, 4]];
    let calculated = flatten_into_hashset(v);
    assert_eq!(calculated.len(), 4);
    for x in [1u64, 2, 3, 4] {
        assert!(calculated.contains_item(&x));
    }
    assert!(!calculated.contains_item(&5u64));
}

#[test]
fn test_filter_segments() {
    let segments = vec!["S\t1\tTCCGAT", "S\t2\tTA", "S\t3\tACG"];
    let nodes = node_set(&["1", "2"]);
    let expected = vec!["S\t1\tTCCGAT", "S\t2\tTA"];
    let calculated = filter_segments(segments, nodes).unwrap();
    assert_eq!(calculated, expected);
}

#[test]
fn test_filter_links() {
    let links = vec![
        "L\t2\t-\t1\t+",
        "L\t2\t-\t3\t+",
        "L\t2\t-\t4\t+",
        "L\t5\t-\t4\t+",
    ];
    let links_to_keep = edge_set(vec![
        edge("1", true, "2", false),
        edge("2", false, "3", true),
        edge("2", true, "4", false),
        edge("5", false, "3", false),
    ]);
    let expected = vec!["L\t2\t-\t1\t+", "L\t2\t-\t3\t+"];
    let calculated = filter_edges(links, links_to_keep).unwrap();
    assert_eq!(calculated, expected);
}

#[test]
fn test_path_scenario_links_only() {
    let (nodes, links, jumps) = get_nodes_edges_from_path("1+,2-,3+").unwrap();
    assert_eq!(
        nodes,
        vec!["1".to_string(), "2".to_string(), "3".to_string()]
    );
    assert_eq!(
        links,
        vec![edge("1", true, "2", false), edge("2", false, "3", true)]
    );
    assert!(jumps.is_empty());
}

#[test]
fn test_path_scenario_jump_separator() {
    let (nodes, links, jumps) = get_nodes_edges_from_path("1+;2-,3+").unwrap();
    assert_eq!(
        nodes,
        vec!["1".to_string(), "2".to_string(), "3".to_string()]
    );
    assert_eq!(links, vec![edge("2", false, "3", true)]);
    assert_eq!(jumps, vec![edge("1", true, "2", false)]);
}

#[test]
fn test_walk_scenario_in_order() {
    let (nodes, links) = get_nodes_edges_from_walk(">1<2>3").unwrap();
    assert_eq!(
        nodes,
        vec!["1".to_string(), "2".to_string(), "3".to_string()]
    );
    assert_eq!(
        links,
        vec![edge("1", true, "2", false), edge("2", false, "3", true)]
    );
}

#[test]
fn test_orientation_symmetry_both_orders() {
    let keep = edge_set(vec![edge("A", true, "B", false)]);
    let lines = vec!["L\tA\t+\tB\t-", "L\tB\t-\tA\t+", "L\tA\t-\tB\t+"];
    let calculated = filter_edges(lines, keep).unwrap();
    assert_eq!(calculated, vec!["L\tA\t+\tB\t-", "L\tB\t-\tA\t+"]);
}

#[test]
fn test_malformed_path_token() {
    let r = get_nodes_edges_from_path("1+,,3+");
    assert_eq!(r, Err(GraphError::MalformedRecord));
}

#[test]
fn test_walk_parse_error() {
    assert_eq!(
        get_nodes_edges_from_walk("1>2"),
        Err(GraphError::ParseError)
    );
    assert_eq!(
        get_nodes_edges_from_walk("><1"),
        Err(GraphError::ParseError)
    );
}

#[test]
fn test_malformed_segment_line() {
    let r = filter_segments(vec!["S"], node_set(&["1"]));
    assert_eq!(r, Err(GraphError::MalformedRecord));
}

#[test]
fn test_malformed_link_line() {
    let r = filter_edges(vec!["L\t1\t+\t2"], edge_set(vec![]));
    assert_eq!(r, Err(GraphError::MalformedRecord));
}

#[test]
fn test_path_without_name() {
    let r = get_paths(vec!["P"], vec!["p1".to_string()]);
    assert_eq!(r, Err(GraphError::MalformedRecord));
}

fn sample_graph() -> Vec<String> {
    vec![
        "H\tVN:Z:1.1".to_string(),
        "S\t1\tTCCGAT".to_string(),
        "S\t2\tTA".to_string(),
        "S\t3\tACG".to_string(),
        "S\t4\tGG".to_string(),
        "L\t1\t+\t2\t-\t0M".to_string(),
        "L\t2\t-\t3\t+\t0M".to_string(),
        "L\t3\t+\t4\t+\t0M".to_string(),
        "P\tp1\t1+,2-,3+\t*".to_string(),
        "P\tp2\t3+,4+\t*".to_string(),
        "# a comment".to_string(),
    ]
}

#[test]
fn test_trim_graph_keep_all_is_regrouping() {
    let out = trim_graph(sample_graph(), None, false, false, false).unwrap();
    let expected: Vec<String> = vec![
        "H\tVN:Z:1.1".to_string(),
        "S\t1\tTCCGAT".to_string(),
        "S\t2\tTA".to_string(),
        "S\t3\tACG".to_string(),
        "S\t4\tGG".to_string(),
        "P\tp1\t1+,2-,3+\t*".to_string(),
        "P\tp2\t3+,4+\t*".to_string(),
        "L\t1\t+\t2\t-\t0M".to_string(),
        "L\t2\t-\t3\t+\t0M".to_string(),
        "L\t3\t+\t4\t+\t0M".to_string(),
        "# a comment".to_string(),
    ];
    assert_eq!(out, expected);
}

#[test]
fn test_trim_graph_selection_drops_untouched() {
    let names = Some(vec!["p1".to_string()]);
    let out = trim_graph(sample_graph(), names, false, false, false).unwrap();
    let expected: Vec<String> = vec![
        "H\tVN:Z:1.1".to_string(),
        "S\t1\tTCCGAT".to_string(),
        "S\t2\tTA".to_string(),
        "S\t3\tACG".to_string(),
        "P\tp1\t1+,2-,3+\t*".to_string(),
        "L\t1\t+\t2\t-\t0M".to_string(),
        "L\t2\t-\t3\t+\t0M".to_string(),
        "# a comment".to_string(),
    ];
    assert_eq!(out, expected);
}

#[test]
fn test_trim_graph_idempotent() {
    let names = Some(vec!["p1".to_string()]);
    let once = trim_graph(sample_graph(), names.clone(), false, false, false).unwrap();
    let twice = trim_graph(once.clone(), names, false, false, false).unwrap();
    assert_eq!(twice, once);
}

#[test]
fn test_trim_graph_ignore_flags() {
    let names = Some(vec!["p1".to_string()]);
    let out = trim_graph(sample_graph(), names, true, false, false).unwrap();
    let expected: Vec<String> = vec![
        "H\tVN:Z:1.1".to_string(),
        "S\t1\tTCCGAT".to_string(),
        "S\t2\tTA".to_string(),
        "S\t3\tACG".to_string(),
        "S\t4\tGG".to_string(),
        "P\tp1\t1+,2-,3+\t*".to_string(),
        "L\t1\t+\t2\t-\t0M".to_string(),
        "L\t2\t-\t3\t+\t0M".to_string(),
        "# a comment".to_string(),
    ];
    assert_eq!(out, expected);
}

#[test]
fn test_trim_graph_unknown_selection_is_silent() {
    let names = Some(vec!["nope".to_string()]);
    let out = trim_graph(sample_graph(), names, false, false, false).unwrap();
    let expected: Vec<String> = vec!["H\tVN:Z:1.1".to_string(), "# a comment".to_string()];
    assert_eq!(out, expected);
}

#[test]
fn test_empty_path_string() {
    let (nodes, links, jumps) = get_nodes_edges_from_path("").unwrap();
    assert!(nodes.is_empty());
    assert!(links.is_empty());
    assert!(jumps.is_empty());
}

#[test]
fn test_empty_walk_string() {
    let (nodes, links) = get_nodes_edges_from_walk("").unwrap();
    assert!(nodes.is_empty());
    assert!(links.is_empty());
}

#[test]
fn test_trim_graph_empty_input() {
    let out = trim_graph(Vec::new(), None, false, false, false).unwrap();
    assert!(out.is_empty());
}

#[test]
fn test_duplicate_node_ids_deduplicated() {
    let paths = vec!["P\tp1\t1+,1-,1+\t*".to_string()];
    let (nodes, links, jumps) = get_nodes_edges(&paths, &Vec::new()).unwrap();
    assert_eq!(nodes.len(), 1);
    assert!(nodes.contains_item(&"1".to_string()));
    assert_eq!(links.len(), 2);
    assert!(links.contains_item(&edge("1", true, "1", false)));
    assert!(links.contains_item(&edge("1", false, "1", true)));
    assert_eq!(jumps.len(), 0);
}

#[test]
fn test_walks_always_retained() {
    let lines = vec![
        "S\t1\tA".to_string(),
        "W\tsmp\t1\tchr1\t0\t5\t>1".to_string(),
        "P\tp1\t1+\t*".to_string(),
    ];
    let names = Some(vec!["nope".to_string()]);
    let out = trim_graph(lines, names, false, false, false).unwrap();
    let expected: Vec<String> = vec![
        "S\t1\tA".to_string(),
        "W\tsmp\t1\tchr1\t0\t5\t>1".to_string(),
    ];
    assert_eq!(out, expected);
}
