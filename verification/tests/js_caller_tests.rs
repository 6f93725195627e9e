use petgraph::graph::Graph;
use petgraph::Directed;
use vrm::vrm::js_caller::{
    add_graph_nodes, dfa_to_regex_def_text, get_accepted_state, get_max_state, to_js_regex, try_add_graph_nodes,
    try_dfa_to_regex_def_text, DfaEdge, DfaError, DfaState,
};

fn edge(key: &str, next: Option<usize>) -> DfaEdge {
    DfaEdge { key: key.to_string(), next }
}

fn state(kind: Option<&str>, edges: Option<Vec<DfaEdge>>) -> DfaState {
    DfaState { kind: kind.map(|k| k.to_string()), edges }
}

/// A DFA reading `a` or `b` from state 0 into the accepting state 1, which loops on `c`.
fn small_dfa() -> Vec<DfaState> {
    vec![
        state(None, Some(vec![edge("[\"a\",\"b\"]", Some(1))])),
        state(Some("accept"), Some(vec![edge("[\"c\"]", Some(1))])),
    ]
}

#[test]
fn accepted_state_is_first_accepting() {
    let dfa = vec![
        state(Some("none"), Some(vec![])),
        state(Some("accept"), Some(vec![])),
        state(Some("accept"), Some(vec![])),
    ];
    assert_eq!(get_accepted_state(&dfa), Some(1));
}

#[test]
fn accepted_state_missing() {
    let dfa = vec![state(None, Some(vec![])), state(Some("Accept"), Some(vec![]))];
    assert_eq!(get_accepted_state(&dfa), None);
    assert_eq!(get_accepted_state(&[]), None);
}

#[test]
fn max_state_is_largest_target() {
    let dfa = vec![
        state(None, Some(vec![edge("[\"a\"]", Some(3)), edge("[\"b\"]", Some(7))])),
        state(None, Some(vec![edge("[\"c\"]", Some(2))])),
    ];
    assert_eq!(get_max_state(&dfa), Ok(7));
}

#[test]
fn max_state_without_edges_is_zero() {
    assert_eq!(get_max_state(&[]), Ok(0));
    assert_eq!(get_max_state(&[state(None, Some(vec![]))]), Ok(0));
}

#[test]
fn max_state_errors() {
    let no_object = vec![state(None, Some(vec![edge("[\"a\"]", Some(1))])), state(None, None)];
    assert_eq!(get_max_state(&no_object), Err(DfaError::EdgesNotObject));
    let bad_target = vec![state(None, Some(vec![edge("[\"a\"]", Some(4)), edge("[\"b\"]", None)]))];
    assert_eq!(get_max_state(&bad_target), Err(DfaError::NextNotU64));
}

#[test]
fn regex_def_text_of_small_dfa() {
    let text = dfa_to_regex_def_text(&small_dfa());
    assert_eq!(text, Ok("0\n1\n1\n0 1 97\n0 1 98\n1 1 99\n".to_string()));
}

#[test]
fn regex_def_text_uses_low_byte_of_character() {
    let dfa = vec![state(Some("accept"), Some(vec![edge("[\"é\"]", Some(0))]))];
    assert_eq!(dfa_to_regex_def_text(&dfa), Ok("0\n0\n0\n0 0 233\n".to_string()));
}

#[test]
fn regex_def_text_errors() {
    let no_accept = vec![state(None, Some(vec![edge("[\"a\"]", Some(0))]))];
    assert_eq!(dfa_to_regex_def_text(&no_accept), Err(DfaError::NoAcceptedState));
    let bad_key = vec![state(Some("accept"), Some(vec![edge("a", Some(0))]))];
    assert_eq!(dfa_to_regex_def_text(&bad_key), Err(DfaError::KeyNotStringList));
    let bad_edges = vec![state(Some("accept"), None)];
    assert_eq!(dfa_to_regex_def_text(&bad_edges), Err(DfaError::EdgesNotObject));
}

#[test]
fn regex_def_text_empty_key_string_is_refused() {
    let dfa = vec![state(Some("accept"), Some(vec![edge("[\"\"]", Some(0))]))];
    assert_eq!(try_dfa_to_regex_def_text(&dfa), None);
    assert_eq!(try_dfa_to_regex_def_text(&small_dfa()), Some(dfa_to_regex_def_text(&small_dfa())));
}

#[test]
fn graph_of_small_dfa() {
    let mut g = Graph::<bool, char, Directed, usize>::default();
    assert_eq!(add_graph_nodes(&small_dfa(), &mut g, None, 1), Ok(()));
    assert_eq!(g.node_count(), 2);
    assert_eq!(g.node_weights().cloned().collect::<Vec<bool>>(), vec![false, true]);
    let edges: Vec<(usize, usize, char)> =
        g.raw_edges().iter().map(|e| (e.source().index(), e.target().index(), e.weight)).collect();
    assert_eq!(edges, vec![(1, 0, 'a'), (1, 0, 'b'), (1, 1, 'c')]);
}

#[test]
fn graph_skips_transitions_already_added() {
    let mut g = Graph::<bool, char, Directed, usize>::default();
    assert_eq!(add_graph_nodes(&small_dfa(), &mut g, None, 1), Ok(()));
    let grown = vec![
        state(None, Some(vec![edge("[\"a\",\"b\"]", Some(1))])),
        state(None, Some(vec![edge("[\"c\"]", Some(1)), edge("[\"d\"]", Some(2))])),
        state(Some("accept"), Some(vec![])),
    ];
    assert_eq!(add_graph_nodes(&grown, &mut g, Some(1), 2), Ok(()));
    assert_eq!(g.node_weights().cloned().collect::<Vec<bool>>(), vec![false, true, true]);
    let edges: Vec<(usize, usize, char)> =
        g.raw_edges().iter().map(|e| (e.source().index(), e.target().index(), e.weight)).collect();
    assert_eq!(edges, vec![(1, 0, 'a'), (1, 0, 'b'), (1, 1, 'c'), (2, 1, 'd')]);
}

#[test]
fn graph_error_keeps_edges_added_before() {
    let mut g = Graph::<bool, char, Directed, usize>::default();
    let dfa = vec![
        state(None, Some(vec![edge("[\"a\"]", Some(1))])),
        state(Some("accept"), Some(vec![edge("not json", Some(1))])),
    ];
    assert_eq!(add_graph_nodes(&dfa, &mut g, None, 1), Err(DfaError::KeyNotStringList));
    assert_eq!(g.node_count(), 2);
    assert_eq!(g.edge_count(), 1);
}

#[test]
fn graph_refuses_what_would_panic() {
    let mut g = Graph::<bool, char, Directed, usize>::default();
    let multi_char_key = vec![state(Some("accept"), Some(vec![edge("[\"ab\"]", Some(0))]))];
    assert_eq!(try_add_graph_nodes(&multi_char_key, &mut g, None, 0), None);
    assert_eq!(g.node_count(), 0);
    let out_of_range = vec![state(Some("accept"), Some(vec![edge("[\"a\"]", Some(5))]))];
    assert_eq!(try_add_graph_nodes(&out_of_range, &mut g, None, 0), None);
    assert_eq!(try_add_graph_nodes(&small_dfa(), &mut g, None, 1), Some(Ok(())));
    assert_eq!(g.edge_count(), 3);
}

#[test]
fn js_regex_rewrites_escapes() {
    assert_eq!(to_js_regex(r"a\\/b"), "a/b");
    assert_eq!(to_js_regex(r"\\♥"), r"\u000b");
    assert_eq!(to_js_regex(r"\\[x\\]\\.\\$\\^"), "[x].$^");
}

#[test]
fn js_regex_leaves_plain_regex_unchanged() {
    assert_eq!(to_js_regex("(a|b)+c"), "(a|b)+c");
    assert_eq!(to_js_regex(r"\n"), r"\n");
    assert_eq!(to_js_regex(r"a\.b\[c\]\/"), r"a\.b\[c\]\/");
}

#[test]
fn graph_edges_reverse_dfa_transitions() {
    let dfa = vec![
        state(None, Some(vec![edge("[\"x\"]", Some(2)), edge("[\"y\",\"z\"]", Some(1))])),
        state(None, Some(vec![edge("[\"w\"]", Some(2))])),
        state(Some("accept"), Some(vec![])),
    ];
    let mut g = Graph::<bool, char, Directed, usize>::default();
    assert_eq!(add_graph_nodes(&dfa, &mut g, None, 2), Ok(()));
    for e in g.raw_edges() {
        let from = e.target().index();
        let to = e.source().index();
        let key = format!("\"{}\"", e.weight);
        let found = dfa[from].edges.as_ref().unwrap().iter().any(|t| t.next == Some(to) && t.key.contains(&key));
        assert!(found, "edge {:?} is no reversed transition", (to, from, e.weight));
    }
    assert_eq!(g.edge_count(), 4);
}

#[test]
fn max_state_bounds_every_target() {
    let dfa = vec![
        state(None, Some(vec![edge("[\"x\"]", Some(2)), edge("[\"y\"]", Some(9))])),
        state(None, Some(vec![edge("[\"w\"]", Some(4))])),
    ];
    let m = get_max_state(&dfa).unwrap();
    assert!(dfa.iter().all(|s| s.edges.as_ref().unwrap().iter().all(|e| e.next.unwrap() <= m)));
    assert!(dfa.iter().any(|s| s.edges.as_ref().unwrap().iter().any(|e| e.next == Some(m))));
}

#[test]
fn dfa_error_messages() {
    assert_eq!(DfaError::NoAcceptedState.message(), "No accepted state");
    assert_eq!(DfaError::EdgesNotObject.message(), "Edges are not object");
    assert_eq!(DfaError::NextNotU64.message(), "next node value is not u64");
    assert_eq!(DfaError::KeyNotStringList.message(), "serde_json from_str error");
}
