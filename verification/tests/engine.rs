use scope_query::graph::{GraphEdge, NodeInfo, ScopeGraph};
use scope_query::matcher::{find_symbol_matches, is_root_candidate};
use scope_query::namespace::NamespaceSymbols;
use scope_query::pattern::does_symbol_match_regex;
use scope_query::query::{Querier, Query};
use scope_query::results::{Location, Position};
use scope_query::search::Search;

fn node(
    symbol: Option<&str>,
    file: Option<usize>,
    tag: Option<&str>,
    span: Option<Location>,
    is_reference: bool,
) -> NodeInfo {
    NodeInfo {
        symbol: symbol.map(|s| s.to_string()),
        file,
        syntax_type: tag.map(|s| s.to_string()),
        span,
        is_reference,
    }
}

fn span_at(line: usize, start: usize, end: usize) -> Location {
    Location {
        start_position: Position { line, character: start },
        end_position: Position { line, character: end },
    }
}

fn edge(source: usize, sink: usize) -> GraphEdge {
    GraphEdge { source, sink }
}

fn chain_graph() -> ScopeGraph {
    // System -(.)-> Configuration -(.)-> ConfigurationManager
    let nodes = vec![
        node(Some("System"), None, None, None, true),
        node(Some("."), None, None, None, false),
        node(Some("Configuration"), None, None, None, false),
        node(Some("."), None, None, None, false),
        node(Some("ConfigurationManager"), None, None, None, false),
    ];
    let edges = vec![edge(0, 1), edge(1, 2), edge(2, 3), edge(3, 4)];
    ScopeGraph::create(nodes, edges, vec![]).unwrap()
}

#[test]
fn literal_segment_matches_only_exactly() {
    assert!(does_symbol_match_regex("Foo", "Foo"));
    assert!(!does_symbol_match_regex("Foo", "FooBar"));
    assert!(!does_symbol_match_regex("Foo", "BarFoo"));
    assert!(!does_symbol_match_regex("Foo", "oFo"));
    assert!(!does_symbol_match_regex("Foo", ""));
}

#[test]
fn bare_wildcard_matches_every_symbol() {
    assert!(does_symbol_match_regex("*", "System"));
    assert!(does_symbol_match_regex("*", "a"));
    assert!(does_symbol_match_regex("*", "Configuration.Manager"));
}

#[test]
fn star_pattern_uses_regex_search() {
    assert!(does_symbol_match_regex("Config*", "ConfigurationManager"));
    assert!(does_symbol_match_regex("Config*", "Confi"));
    assert!(!does_symbol_match_regex("Config*", "Xonfi"));
}

#[test]
fn create_search_round_trips_segments() {
    for query in ["System.Configuration.*", "System.Config*.Manager", "plain", "a.b.c"] {
        let search = Search::create_search(query.to_string()).unwrap();
        let texts: Vec<String> = search.parts.iter().map(|p| p.text()).collect();
        assert_eq!(texts.join("."), query);
    }
}

#[test]
fn create_search_rejects_bad_pattern() {
    let err = Search::create_search("System.[*".to_string()).unwrap_err();
    assert_eq!(err.segment, "[*");
}

#[test]
fn all_references_search_looks_at_last_segment() {
    let s = Search::create_search("System.Configuration.*".to_string()).unwrap();
    assert!(s.all_references_search());
    let s = Search::create_search("System.*.Manager".to_string()).unwrap();
    assert!(!s.all_references_search());
    let s = Search::create_search("System".to_string()).unwrap();
    assert!(!s.all_references_search());
}

#[test]
fn match_namespace_requires_one_fewer_part() {
    let s = Search::create_search("System.Configuration.*".to_string()).unwrap();
    assert!(s.match_namespace("System.Configuration"));
    assert!(!s.match_namespace("System"));
    assert!(!s.match_namespace("System.Configuration.Extra"));
}

#[test]
fn partial_namespace_accepts_prefixes() {
    let s = Search::create_search("System.Configuration.*".to_string()).unwrap();
    assert!(s.partial_namespace("System"));
    assert!(s.partial_namespace("System.Configuration"));
    assert!(!s.partial_namespace("Other"));
    assert!(!s.partial_namespace("System.Configuration.A.B"));
}

#[test]
fn traversal_finds_chain_terminal() {
    let g = chain_graph();
    let s = Search::create_search("System.Configuration.ConfigurationManager".to_string()).unwrap();
    let found = find_symbol_matches(&g, &s);
    assert_eq!(found, vec![4]);
}

#[test]
fn traversal_accepts_wildcard_middle_segment() {
    let g = chain_graph();
    let s = Search::create_search("System.*.ConfigurationManager".to_string()).unwrap();
    let found = find_symbol_matches(&g, &s);
    assert_eq!(found, vec![4]);
}

#[test]
fn traversal_misses_absent_terminal() {
    let g = chain_graph();
    let s = Search::create_search("System.Configuration.Missing".to_string()).unwrap();
    let found = find_symbol_matches(&g, &s);
    assert!(found.is_empty());
}

#[test]
fn node_with_incoming_edge_is_not_a_root() {
    // Same chain, plus an extra node pointing into "System".
    let nodes = vec![
        node(Some("System"), None, None, None, true),
        node(Some("."), None, None, None, false),
        node(Some("Configuration"), None, None, None, false),
        node(Some("extra"), None, None, None, false),
    ];
    let edges = vec![edge(0, 1), edge(1, 2), edge(3, 0)];
    let g = ScopeGraph::create(nodes, edges, vec![]).unwrap();
    let s = Search::create_search("System.Configuration".to_string()).unwrap();
    assert!(!is_root_candidate(&g, &s, 0));
    let found = find_symbol_matches(&g, &s);
    assert!(found.is_empty());
}

#[test]
fn root_needs_connector_and_no_incoming() {
    let g = chain_graph();
    let s = Search::create_search("System.Configuration.ConfigurationManager".to_string()).unwrap();
    assert!(is_root_candidate(&g, &s, 0));
    // "Configuration" has an incoming edge from the connector.
    assert!(!is_root_candidate(&g, &s, 2));
}

#[test]
fn namespace_index_classifies_tagged_descendants() {
    let nodes = vec![
        node(Some("System.Configuration"), None, Some("namespace-declaration"), None, false),
        node(Some("Foo"), None, Some("class-def"), None, false),
        node(Some("Bar"), None, Some("method_name"), None, false),
        node(Some("Baz"), None, None, None, false),
    ];
    let edges = vec![edge(0, 1), edge(0, 2), edge(0, 3)];
    let g = ScopeGraph::create(nodes, edges, vec![]).unwrap();
    let ns = NamespaceSymbols::new(&g, vec![0]);
    assert!(ns.symbol_in_namespace("Foo"));
    assert!(ns.symbol_in_namespace("Bar"));
    assert!(!ns.symbol_in_namespace("Baz"));
}

#[test]
fn untagged_subtree_yields_empty_index() {
    let nodes = vec![
        node(Some("root"), None, None, None, false),
        node(Some("child"), None, None, None, false),
    ];
    let edges = vec![edge(0, 1)];
    let g = ScopeGraph::create(nodes, edges, vec![]).unwrap();
    let ns = NamespaceSymbols::new(&g, vec![0]);
    assert!(!ns.symbol_in_namespace("root"));
    assert!(!ns.symbol_in_namespace("child"));
}

#[test]
fn graph_create_rejects_out_of_range_edge() {
    let nodes = vec![node(Some("a"), None, None, None, false)];
    let edges = vec![edge(0, 3)];
    assert!(ScopeGraph::create(nodes, edges, vec![]).is_none());
}

#[test]
fn graph_create_rejects_out_of_range_file() {
    let nodes = vec![node(Some("a"), Some(2), None, None, false)];
    assert!(ScopeGraph::create(nodes, vec![], vec!["/src/a.cs".to_string()]).is_none());
}

#[test]
fn end_to_end_namespace_reference_search() {
    // File a declares namespace System.Configuration with a class and a
    // method; file b imports it and references ConfigurationManager.
    let files = vec!["/src/a.cs".to_string(), "/src/b.cs".to_string()];
    let nodes = vec![
        node(Some("a.cs"), Some(0), Some("comp-unit"), Some(span_at(0, 0, 0)), false),
        node(
            Some("System.Configuration"),
            Some(0),
            Some("namespace-declaration"),
            Some(span_at(1, 0, 30)),
            false,
        ),
        node(Some("ConfigurationManager"), Some(0), Some("class-def"), Some(span_at(2, 0, 20)), false),
        node(Some("AppSettings"), Some(0), Some("method_name"), Some(span_at(3, 0, 11)), false),
        node(Some("b.cs"), Some(1), Some("comp-unit"), Some(span_at(0, 0, 0)), false),
        node(
            Some("System.Configuration"),
            Some(1),
            Some("import"),
            Some(span_at(0, 6, 26)),
            true,
        ),
        node(Some("ConfigurationManager"), Some(1), None, Some(span_at(10, 5, 25)), true),
    ];
    let edges = vec![edge(1, 2), edge(2, 3), edge(4, 5), edge(4, 6)];
    let g = ScopeGraph::create(nodes, edges, files).unwrap();
    let q = Querier::new(&g);
    let results = q.query("System.Configuration.*".to_string()).unwrap();
    assert_eq!(results.len(), 1);
    let r = &results[0];
    assert_eq!(r.file_uri, "file:///src/b.cs");
    assert_eq!(r.line_number, 10);
    assert_eq!(r.code_location, span_at(10, 5, 25));
    assert!(r.variables.is_empty());
}

#[test]
fn traversal_mode_builds_located_results() {
    // A single-file chain whose terminal node carries a file and a span, so
    // the traversal mode can render a full result.
    let files = vec!["/src/c.cs".to_string()];
    let nodes = vec![
        node(Some("System"), Some(0), None, None, true),
        node(Some("."), Some(0), None, None, false),
        node(Some("Configuration"), Some(0), None, Some(span_at(7, 2, 15)), false),
    ];
    let edges = vec![edge(0, 1), edge(1, 2)];
    let g = ScopeGraph::create(nodes, edges, files).unwrap();
    let q = Querier::new(&g);
    let results = q.query("System.Configuration".to_string()).unwrap();
    assert_eq!(results.len(), 1);
    assert_eq!(results[0].file_uri, "file:///src/c.cs");
    assert_eq!(results[0].line_number, 7);
    assert_eq!(results[0].code_location, span_at(7, 2, 15));
}

#[test]
fn query_rejects_malformed_segment() {
    let g = chain_graph();
    let q = Querier::new(&g);
    let err = q.query("System.[*".to_string()).unwrap_err();
    assert_eq!(err.segment, "[*");
}
