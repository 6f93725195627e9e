use petgraph::graph::Graph;
use petgraph::Directed;
use std::collections::HashMap;
use vrm::vrm::entry_config::{BodyPartConfig, EntryConfig, SolidityType};
use vrm::vrm::gen_regex_defs::{add_self_loop_defs, match_ends_of, path_text_of, push_part_regex, RegexDefError};
use vrm::vrm::js_caller::{add_graph_nodes, DfaEdge, DfaState};
use vrm::vrm::substr_defs::SubstrDefs;
use vrm::vrm::substr_paths::path_states_and_labels;

fn part(is_public: bool, regex_def: &str, max_size: usize, solidity: Option<SolidityType>) -> BodyPartConfig {
    BodyPartConfig { is_public, regex_def: regex_def.to_string(), max_size, solidity }
}

fn config(parts: Vec<BodyPartConfig>, max_body_size: usize) -> EntryConfig {
    let mut rules = HashMap::new();
    rules.insert(5, parts);
    EntryConfig { max_header_size: 1024, max_body_size, rules }
}

fn defs_of(entries: &[(usize, usize, bool)]) -> SubstrDefs {
    let mut d = SubstrDefs::new();
    for e in entries {
        d.insert(*e);
    }
    d
}

fn strings(v: &[&str]) -> Vec<String> {
    v.iter().map(|s| s.to_string()).collect()
}

#[test]
fn substr_defs_keep_first_insertion_order() {
    let mut d = SubstrDefs::new();
    assert!(!d.contains((1, 2, false)));
    d.insert((1, 2, false));
    d.insert((0, 1, true));
    d.insert((1, 2, false));
    assert!(d.contains((1, 2, false)));
    assert!(!d.contains((1, 2, true)));
    assert_eq!(d.entries(), &vec![(1, 2, false), (0, 1, true)]);
}

#[test]
fn body_regex_surrounds_parts() {
    let c = config(vec![part(false, "x", 1, None), part(true, "ab", 2, Some(SolidityType::String))], 100);
    assert_eq!(c.all_body_regex(5, "C", "P"), "(C+)?Pxab\r\n(C+)?");
}

#[test]
fn part_regexes_accumulate() {
    let mut rs = Vec::new();
    assert_eq!(push_part_regex(&mut rs, "x"), Ok(()));
    assert_eq!(push_part_regex(&mut rs, "ab"), Ok(()));
    assert_eq!(rs.len(), 2);
    assert_eq!(rs[0].pattern(), "x");
    assert_eq!(rs[1].pattern(), "xab");
}

#[test]
fn part_regex_that_does_not_compile() {
    let mut rs = Vec::new();
    assert_eq!(push_part_regex(&mut rs, "x"), Ok(()));
    assert_eq!(push_part_regex(&mut rs, "(a"), Err(RegexDefError::InvalidRegex));
    assert_eq!(rs.len(), 1);
}

#[test]
fn path_text_takes_first_bytes() {
    assert_eq!(path_text_of(&strings(&["x", "ab", "c"])), "xac");
    assert_eq!(path_text_of(&[]), "");
}

#[test]
fn match_ends_of_patterns() {
    let mut rs = Vec::new();
    push_part_regex(&mut rs, "x").unwrap();
    push_part_regex(&mut rs, "ab").unwrap();
    assert_eq!(match_ends_of(&rs, "xab"), Some(vec![1, 3]));
    assert_eq!(match_ends_of(&rs, "zzz"), None);
}

#[test]
fn empty_match_ends_one_further() {
    let mut rs = Vec::new();
    push_part_regex(&mut rs, "y*").unwrap();
    assert_eq!(match_ends_of(&rs, "xab"), Some(vec![1]));
}

#[test]
fn record_substr_defs_of_a_path() {
    let c = config(vec![part(false, "x", 1, None), part(true, "ab", 2, Some(SolidityType::String))], 100);
    let mut rs = Vec::new();
    push_part_regex(&mut rs, "x").unwrap();
    push_part_regex(&mut rs, "ab").unwrap();
    let mut defs = vec![SubstrDefs::new()];
    c.add_substr_defs_from_path(&mut defs, &[0, 1, 2, 3], &strings(&["x", "a", "b"]), &rs, &[1]);
    assert_eq!(defs[0].entries(), &vec![(1, 2, false), (2, 3, true)]);
}

#[test]
fn recording_a_path_twice_changes_nothing() {
    let c = config(vec![part(false, "x", 1, None), part(true, "ab", 2, Some(SolidityType::String))], 100);
    let mut rs = Vec::new();
    push_part_regex(&mut rs, "x").unwrap();
    push_part_regex(&mut rs, "ab").unwrap();
    let mut defs = vec![SubstrDefs::new()];
    assert!(c.try_add_substr_defs_from_path(&mut defs, &[0, 1, 2, 3], &strings(&["x", "a", "b"]), &rs, &[1]));
    let once = defs[0].entries().clone();
    assert!(c.try_add_substr_defs_from_path(&mut defs, &[0, 1, 2, 3], &strings(&["x", "a", "b"]), &rs, &[1]));
    assert_eq!(defs[0].entries(), &once);
}

#[test]
fn recording_a_path_that_does_not_match() {
    let c = config(vec![part(true, "ab", 2, Some(SolidityType::Uint))], 100);
    let mut rs = Vec::new();
    push_part_regex(&mut rs, "ab").unwrap();
    let mut defs = vec![defs_of(&[(7, 8, false)])];
    assert!(!c.try_add_substr_defs_from_path(&mut defs, &[0, 1, 2], &strings(&["x", "y"]), &rs, &[0]));
    assert!(!c.try_add_substr_defs_from_path(&mut defs, &[0, 1], &strings(&["a", "b"]), &rs, &[0]));
    assert!(!c.try_add_substr_defs_from_path(&mut defs, &[0, 1, 2], &strings(&["a", ""]), &rs, &[0]));
    assert_eq!(defs[0].entries(), &vec![(7, 8, false)]);
}

#[test]
fn self_loops_added_where_unmarked_transitions_touch() {
    let mut defs = vec![defs_of(&[(1, 2, false), (2, 3, true)]), defs_of(&[(7, 7, true)])];
    add_self_loop_defs(&mut defs, &[2, 3, 7]);
    assert_eq!(defs[0].entries(), &vec![(1, 2, false), (2, 3, true), (2, 2, false)]);
    assert_eq!(defs[1].entries(), &vec![(7, 7, true)]);
}

#[test]
fn self_loops_added_twice_change_nothing() {
    let mut defs = vec![defs_of(&[(1, 2, false), (2, 3, true)])];
    add_self_loop_defs(&mut defs, &[2, 3]);
    let once = defs[0].entries().clone();
    add_self_loop_defs(&mut defs, &[2, 3]);
    assert_eq!(defs[0].entries(), &once);
}

#[test]
fn substr_def_file_lists_transitions() {
    let c = config(vec![], 100);
    let d = defs_of(&[(1, 2, false), (2, 3, true)]);
    assert_eq!(c.substr_def_file(5, &d), "5\n0\n99\n1 2\n2 3\n");
}

fn small_dfa() -> Vec<DfaState> {
    vec![
        DfaState { kind: None, edges: Some(vec![DfaEdge { key: "[\"a\",\"b\"]".to_string(), next: Some(1) }]) },
        DfaState {
            kind: Some("accept".to_string()),
            edges: Some(vec![DfaEdge { key: "[\"c\"]".to_string(), next: Some(1) }]),
        },
    ]
}

fn small_graph() -> Graph<bool, char, Directed, usize> {
    let mut g = Graph::<bool, char, Directed, usize>::default();
    add_graph_nodes(&small_dfa(), &mut g, None, 1).unwrap();
    g
}

#[test]
fn path_states_and_labels_read_back_edges() {
    let g = small_graph();
    let (states, labels) = path_states_and_labels(&g, &[1]).unwrap();
    assert_eq!(states, vec![0, 1]);
    assert_eq!(labels, vec!["b".to_string()]);
}

#[test]
fn path_with_missing_edge() {
    let g = small_graph();
    assert_eq!(path_states_and_labels(&g, &[0]), None);
    assert_eq!(path_states_and_labels(&g, &[1, 5]), None);
}

#[test]
fn empty_path_is_state_zero() {
    let g = small_graph();
    assert_eq!(path_states_and_labels(&g, &[]), Some((vec![0], vec![])));
}

#[test]
fn substr_files_of_a_rule() {
    let c = config(vec![part(true, "(a|b)", 4, Some(SolidityType::String))], 1024);
    let g = small_graph();
    let files = c.substr_files_for_one_rule(5, &strings(&["(a|b)"]), &small_dfa(), &g, &[vec![1], vec![1]], &[1]);
    assert_eq!(files, Ok(Some(vec!["4\n0\n1023\n0 1\n1 1\n".to_string()])));
}

#[test]
fn substr_files_of_a_rule_without_public_parts() {
    let c = config(vec![part(false, "(a|b)", 4, None)], 0);
    let g = small_graph();
    assert_eq!(c.substr_files_for_one_rule(5, &strings(&["(a|b)"]), &small_dfa(), &g, &[vec![1]], &[1]), Ok(Some(vec![])));
}

#[test]
fn substr_files_errors() {
    let c = config(vec![part(true, "(a", 4, Some(SolidityType::String))], 1024);
    let g = small_graph();
    assert_eq!(c.substr_files_for_one_rule(5, &strings(&["(a"]), &small_dfa(), &g, &[vec![1]], &[]), Err(RegexDefError::InvalidRegex));
}

#[test]
fn substr_files_refused() {
    let c = config(vec![part(true, "(a|b)", 4, Some(SolidityType::String))], 1024);
    let g = small_graph();
    assert_eq!(c.substr_files_for_one_rule(5, &strings(&["(a|b)"]), &small_dfa(), &g, &[vec![1, 5]], &[]), Ok(None));
    assert_eq!(c.substr_files_for_one_rule(5, &strings(&["z"]), &small_dfa(), &g, &[vec![1]], &[]), Ok(None));
    let zero_body = config(vec![part(true, "(a|b)", 4, Some(SolidityType::String))], 0);
    assert_eq!(zero_body.substr_files_for_one_rule(5, &strings(&["(a|b)"]), &small_dfa(), &g, &[vec![1]], &[]), Ok(None));
}

#[test]
fn substr_files_need_dfa_transitions() {
    let c = config(vec![part(true, "(a|b)", 4, Some(SolidityType::String))], 1024);
    let g = small_graph();
    let dfa = small_dfa();
    assert_eq!(c.substr_files_for_one_rule(5, &strings(&["(a|b)"]), &dfa, &g, &[vec![1]], &[0]), Ok(None));
    assert_eq!(c.substr_files_for_one_rule(5, &strings(&["(a|b)"]), &dfa, &g, &[vec![0]], &[]), Ok(None));
    assert_eq!(c.substr_files_for_one_rule(5, &strings(&["(a|b)"]), &dfa, &g, &[vec![7]], &[]), Ok(None));
}

fn two_key_dfa(key: &str) -> Vec<DfaState> {
    vec![
        DfaState { kind: None, edges: Some(vec![DfaEdge { key: key.to_string(), next: Some(1) }]) },
        DfaState { kind: Some("accept".to_string()), edges: Some(vec![]) },
    ]
}

#[test]
fn path_label_is_the_last_added_parallel_edge() {
    let c = config(vec![part(true, "a", 4, Some(SolidityType::String))], 1024);
    let ab = two_key_dfa("[\"a\",\"b\"]");
    let mut g = Graph::<bool, char, Directed, usize>::default();
    add_graph_nodes(&ab, &mut g, None, 1).unwrap();
    assert_eq!(path_states_and_labels(&g, &[1]), Some((vec![0, 1], vec!["b".to_string()])));
    assert_eq!(c.substr_files_for_one_rule(5, &strings(&["a"]), &ab, &g, &[vec![1]], &[]), Ok(None));
    let ba = two_key_dfa("[\"b\",\"a\"]");
    let mut g2 = Graph::<bool, char, Directed, usize>::default();
    add_graph_nodes(&ba, &mut g2, None, 1).unwrap();
    assert_eq!(path_states_and_labels(&g2, &[1]), Some((vec![0, 1], vec!["a".to_string()])));
    assert_eq!(
        c.substr_files_for_one_rule(5, &strings(&["a"]), &ba, &g2, &[vec![1]], &[]),
        Ok(Some(vec!["4\n0\n1023\n0 1\n".to_string()]))
    );
}

#[test]
fn regex_error_message() {
    assert_eq!(RegexDefError::InvalidRegex.message(), "regex parse error");
}
