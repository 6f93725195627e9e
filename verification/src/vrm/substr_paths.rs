use crate::fancy::{regex_compiles, PartRegex};
use crate::graph::{found_edge, graph_edge_weight, graph_edges, graph_find_edge};
use crate::json::strings_view;
use crate::text::string_from_chars;
use crate::vrm::entry_config::EntryConfig;
use crate::vrm::gen_regex_defs::{
    add_self_loop_defs, defs_view, match_ends, span_pair, touches_unmarked, next_pattern, path_text, patterns_view, push_part_regex, self_loop_defs,
    span_defs, span_start, substr_def_file_text, substr_defs_ok, substr_defs_recorded, RegexDefError,
};
use crate::vrm::entry_config::{parts_view, BodyPartView};
use crate::vrm::gen_relayer_configs::{lemma_public_positions_take, lemma_public_positions_valid, public_positions};
use crate::vrm::substr_defs::SubstrDefs;
use crate::vrm::js_caller::{edges_view, states_view, DfaState, StateView};
use petgraph::graph::Graph;
use petgraph::Directed;
use vstd::prelude::*;

verus! {

/// The states of an accepting path found by walking back from the accepting
/// state (`path`, without the start state 0), in the DFA's order: from state 0
/// to the accepting state.
pub open spec fn forward_states(path: Seq<usize>) -> Seq<usize> {
    path.push(0).reverse()
}

/// The paths, each taken by its states.
pub open spec fn paths_view(paths: Seq<Vec<usize>>) -> Seq<Seq<usize>> {
    paths.map_values(|v: Vec<usize>| v@)
}

/// The label that `find_edge` reads for step `t` of `states`: the weight of
/// the edge back from `states[t + 1]` to `states[t]` that it gives (see
/// [`found_edge`]), as a one-character string.
pub open spec fn step_label(g: Graph<bool, char, Directed, usize>, states: Seq<usize>, t: int) -> Option<Seq<char>> {
    match found_edge(g, states[t + 1], states[t]) {
        Some(e) => Some(seq![graph_edges(g)[e as int].2]),
        None => None,
    }
}

/// Whether `find_edge` gives an edge back for every step of `states`.
pub open spec fn path_readable(g: Graph<bool, char, Directed, usize>, states: Seq<usize>) -> bool {
    forall|t: int| 0 <= t < states.len() - 1 ==> (#[trigger] step_label(g, states, t)) is Some
}

/// The labels of the steps of `states`, as `find_edge` reads them (see
/// [`step_label`]).
pub open spec fn path_labels(g: Graph<bool, char, Directed, usize>, states: Seq<usize>) -> Seq<Seq<char>> {
    Seq::new((states.len() - 1) as nat, |t: int| step_label(g, states, t)->0)
}

/// The labels of every path (see [`path_labels`]).
pub open spec fn all_path_labels(g: Graph<bool, char, Directed, usize>, paths: Seq<Seq<usize>>) -> Seq<Seq<Seq<char>>> {
    Seq::new(paths.len(), |p: int| path_labels(g, forward_states(paths[p])))
}

/// The states of an accepting path (see [`forward_states`]) and the labels of
/// its steps, read from the graph's edges as `find_edge` gives them (see
/// [`path_labels`]); `None` when a step has no edge back.
pub fn path_states_and_labels(graph: &Graph<bool, char, Directed, usize>, path: &[usize]) -> (r: Option<(Vec<usize>, Vec<String>)>)
    ensures
        r is Some <==> path_readable(*graph, forward_states(path@)),
        r matches Some((states, labels)) ==> states@ == forward_states(path@) && strings_view(labels@) == path_labels(
            *graph,
            states@,
        ),
{
    let ghost fs = forward_states(path@);
    let n = path.len();
    let mut states: Vec<usize> = Vec::new();
    let mut labels: Vec<String> = Vec::new();
    states.push(0);
    assert(fs.len() == n + 1);
    assert(states@ =~= fs.take(1));
    let mut t: usize = 0;
    while t < n
        invariant
            n == path@.len(),
            t <= n,
            fs == forward_states(path@),
            fs.len() == n + 1,
            states@ == fs.take(t + 1),
            labels@.len() == t,
            forall|u: int|
                0 <= u < t ==> (#[trigger] step_label(*graph, fs, u)) is Some && strings_view(labels@)[u] == step_label(
                    *graph,
                    fs,
                    u,
                )->0,
        decreases n - t,
    {
        let from = path[n - 1 - t];
        let to = states[t];
        assert(fs[t + 1] == from);
        assert(fs[t as int] == to);
        match graph_find_edge(graph, from, to) {
            None => {
                assert(step_label(*graph, fs, t as int) is None);
                return None;
            },
            Some(e) => {
                let c = match graph_edge_weight(graph, e) {
                    Some(c) => c,
                    None => {
                        assert(false);
                        '\0'
                    },
                };
                let one = vec![c];
                let label = string_from_chars(one.as_slice());
                let ghost before = labels@;
                labels.push(label);
                states.push(from);
                assert(strings_view(labels@)[t as int] == seq![c]);
                assert(step_label(*graph, fs, t as int) == Some(seq![c]));
                assert forall|u: int| 0 <= u < t + 1 implies (#[trigger] step_label(*graph, fs, u)) is Some
                    && strings_view(labels@)[u] == step_label(*graph, fs, u)->0 by {
                    if u < t {
                        assert(strings_view(labels@)[u] == strings_view(before)[u]);
                    }
                }
                assert(states@ =~= fs.take(t + 2));
            },
        }
        t = t + 1;
    }
    assert(states@ =~= fs);
    assert(strings_view(labels@) =~= path_labels(*graph, fs));
    Some((states, labels))
}

/// The sets `before` with, for each public part (by its index in `publics`, as
/// far as there are sets), the state pairs of its span on the path added.
pub open spec fn record_path(
    before: Seq<Set<(usize, usize, bool)>>,
    states: Seq<usize>,
    strs: Seq<Seq<char>>,
    patterns: Seq<Seq<char>>,
    publics: Seq<usize>,
) -> Seq<Set<(usize, usize, bool)>> {
    let ends = match_ends(patterns, path_text(strs));
    Seq::new(
        before.len(),
        |k: int|
            if k < publics.len() {
                before[k].union(span_defs(states, span_start(ends, publics[k]), ends[publics[k] as int] as int))
            } else {
                before[k]
            },
    )
}

/// The sets `before` once the accepting paths `paths`, with step labels
/// `labels`, were recorded one after the other.
pub open spec fn record_paths(
    before: Seq<Set<(usize, usize, bool)>>,
    paths: Seq<Seq<usize>>,
    labels: Seq<Seq<Seq<char>>>,
    patterns: Seq<Seq<char>>,
    publics: Seq<usize>,
) -> Seq<Set<(usize, usize, bool)>>
    decreases paths.len(),
{
    if paths.len() == 0 {
        before
    } else {
        record_path(
            record_paths(before, paths.drop_last(), labels, patterns, publics),
            forward_states(paths.last()),
            labels[paths.len() - 1],
            patterns,
            publics,
        )
    }
}

/// Each set with its self-loop transitions (see [`self_loop_defs`]) added.
pub open spec fn with_self_loops(sets: Seq<Set<(usize, usize, bool)>>, self_nodes: Seq<usize>) -> Seq<Set<(usize, usize, bool)>> {
    Seq::new(sets.len(), |k: int| sets[k].union(self_loop_defs(sets[k], self_nodes)))
}

/// `n` empty sets.
pub open spec fn empty_sets(n: nat) -> Seq<Set<(usize, usize, bool)>> {
    Seq::new(n, |k: int| Set::empty())
}

/// Whether every path can be recorded with the labels `find_edge` reads for
/// it: every step has an edge back, and the recording succeeds (see
/// [`substr_defs_ok`]).
pub open spec fn paths_fit(
    g: Graph<bool, char, Directed, usize>,
    paths: Seq<Seq<usize>>,
    patterns: Seq<Seq<char>>,
    publics: Seq<usize>,
) -> bool {
    forall|p: int| 0 <= p < paths.len() ==> !#[trigger] path_fails(g, paths[p], patterns, publics)
}

/// Whether recording the path fails: a step has no edge back, or the labels
/// `find_edge` reads make the recording fail (see [`substr_defs_ok`]).
pub open spec fn path_fails(
    g: Graph<bool, char, Directed, usize>,
    path: Seq<usize>,
    patterns: Seq<Seq<char>>,
    publics: Seq<usize>,
) -> bool {
    ||| !path_readable(g, forward_states(path))
    ||| !substr_defs_ok(
        forward_states(path),
        path_labels(g, forward_states(path)),
        patterns,
        publics,
        publics.len(),
    )
}

proof fn lemma_recorded_is_record_path(
    before: Seq<Set<(usize, usize, bool)>>,
    after: Seq<Set<(usize, usize, bool)>>,
    states: Seq<usize>,
    strs: Seq<Seq<char>>,
    patterns: Seq<Seq<char>>,
    publics: Seq<usize>,
)
    requires
        substr_defs_recorded(before, after, states, strs, patterns, publics),
    ensures
        after == record_path(before, states, strs, patterns, publics),
{
    assert(after =~= record_path(before, states, strs, patterns, publics));
}

proof fn lemma_record_paths_prefix(
    before: Seq<Set<(usize, usize, bool)>>,
    paths: Seq<Seq<usize>>,
    labels: Seq<Seq<Seq<char>>>,
    patterns: Seq<Seq<char>>,
    publics: Seq<usize>,
    p: int,
)
    requires
        0 <= p < paths.len(),
    ensures
        record_paths(before, paths.take(p + 1), labels, patterns, publics) == record_path(
            record_paths(before, paths.take(p), labels, patterns, publics),
            forward_states(paths[p]),
            labels[p],
            patterns,
            publics,
        ),
{
    assert(paths.take(p + 1).drop_last() =~= paths.take(p));
}

impl EntryConfig {
    /// Records every accepting path found in the graph (each walked back from
    /// the accepting state, without state 0), one set per public part, then
    /// adds the self-loop transitions of `self_nodes`. The labels of each path
    /// are read from the graph's edges (see [`path_states_and_labels`]). `None`
    /// exactly when some path cannot be recorded (see [`path_fails`]).
    pub fn substr_defs_of_paths(
        &self,
        graph: &Graph<bool, char, Directed, usize>,
        paths: &[Vec<usize>],
        part_regexes: &[PartRegex],
        public_config_indexes: &[usize],
        self_nodes: &[usize],
    ) -> (r: Option<Vec<SubstrDefs>>)
        ensures
            r is Some <==> paths_fit(*graph, paths_view(paths@), patterns_view(part_regexes@), public_config_indexes@),
            r matches Some(defs) ==> defs@.len() == public_config_indexes@.len() && defs_view(defs@) == with_self_loops(
                record_paths(
                    empty_sets(public_config_indexes@.len()),
                    paths_view(paths@),
                    all_path_labels(*graph, paths_view(paths@)),
                    patterns_view(part_regexes@),
                    public_config_indexes@,
                ),
                self_nodes@,
            ),
    {
        let ghost pv = paths_view(paths@);
        let ghost pats = patterns_view(part_regexes@);
        let ghost publics = public_config_indexes@;
        let ghost labels = all_path_labels(*graph, pv);
        let mut defs: Vec<SubstrDefs> = Vec::new();
        let mut k: usize = 0;
        while k < public_config_indexes.len()
            invariant
                k <= public_config_indexes@.len(),
                defs@.len() == k,
                forall|m: int| 0 <= m < k ==> (#[trigger] defs@[m])@ == Set::<(usize, usize, bool)>::empty(),
            decreases public_config_indexes.len() - k,
        {
            defs.push(SubstrDefs::new());
            k = k + 1;
        }
        assert(defs_view(defs@) =~= empty_sets(publics.len()));
        let mut p: usize = 0;
        assert(pv.take(0) =~= Seq::<Seq<usize>>::empty());
        while p < paths.len()
            invariant
                p <= paths@.len(),
                pv == paths_view(paths@),
                pats == patterns_view(part_regexes@),
                publics == public_config_indexes@,
                labels == all_path_labels(*graph, pv),
                defs@.len() == publics.len(),
                forall|q: int| 0 <= q < p ==> !#[trigger] path_fails(*graph, pv[q], pats, publics),
                defs_view(defs@) == record_paths(empty_sets(publics.len()), pv.take(p as int), labels, pats, publics),
            decreases paths.len() - p,
        {
            assert(pv[p as int] == paths@[p as int]@);
            let (states, strs) = match path_states_and_labels(graph, paths[p].as_slice()) {
                Some(x) => x,
                None => {
                    assert(path_fails(*graph, pv[p as int], pats, publics));
                    return None;
                },
            };
            assert(labels[p as int] == strings_view(strs@));
            let ghost before = defs_view(defs@);
            let done = self.try_add_substr_defs_from_path(&mut defs, states.as_slice(), strs.as_slice(), part_regexes, public_config_indexes);
            if !done {
                assert(path_fails(*graph, pv[p as int], pats, publics));
                return None;
            }
            proof {
                lemma_recorded_is_record_path(before, defs_view(defs@), states@, strings_view(strs@), pats, publics);
                lemma_record_paths_prefix(empty_sets(publics.len()), pv, labels, pats, publics, p as int);
            }
            p = p + 1;
        }
        assert(pv.take(p as int) =~= pv);
        let ghost recorded = defs_view(defs@);
        add_self_loop_defs(&mut defs, self_nodes);
        assert(defs_view(defs@) =~= with_self_loops(recorded, self_nodes@));
        Some(defs)
    }
}

/// The regexes of a rule's parts: the `k`-th is the formatted regexes of parts
/// `0..=k`, one after the other.
pub open spec fn part_patterns(formatted: Seq<Seq<char>>) -> Seq<Seq<char>>
    decreases formatted.len(),
{
    if formatted.len() == 0 {
        seq![]
    } else {
        let c = part_patterns(formatted.drop_last());
        c.push(next_pattern(c, formatted.last()))
    }
}

/// Whether every regex of [`part_patterns`] compiles.
pub open spec fn patterns_compile(formatted: Seq<Seq<char>>) -> bool {
    forall|k: int| 0 <= k < formatted.len() ==> regex_compiles(#[trigger] part_patterns(formatted)[k])
}

/// The indexes of the public parts, as machine integers.
pub open spec fn public_indexes(parts: Seq<BodyPartView>) -> Seq<usize> {
    public_positions(parts).map_values(|i: int| i as usize)
}

/// The regexes of the first parts are those of all parts, cut short.
pub proof fn lemma_part_patterns_take(formatted: Seq<Seq<char>>, j: int)
    requires
        0 <= j <= formatted.len(),
    ensures
        part_patterns(formatted).len() == formatted.len(),
        part_patterns(formatted.take(j)) == part_patterns(formatted).take(j),
    decreases formatted.len(),
{
    if formatted.len() > 0 {
        if j == formatted.len() {
            lemma_part_patterns_take(formatted.drop_last(), j - 1);
            assert(formatted.take(j) =~= formatted);
            assert(part_patterns(formatted).take(j) =~= part_patterns(formatted));
        } else {
            lemma_part_patterns_take(formatted.drop_last(), j);
            assert(formatted.drop_last().take(j) =~= formatted.take(j));
            assert(part_patterns(formatted.drop_last()).take(j) =~= part_patterns(formatted).take(j));
        }
    }
}

/// The files of the public parts, in order: the substring definition file of
/// each (see [`substr_def_file_text`]) lists the transitions of its set, each
/// once, in some order.
pub open spec fn substr_files_hold(
    files: Seq<String>,
    parts: Seq<BodyPartView>,
    max_body_size: usize,
    sets: Seq<Set<(usize, usize, bool)>>,
) -> bool {
    &&& files.len() == public_positions(parts).len()
    &&& sets.len() == files.len()
    &&& forall|i: int|
        0 <= i < files.len() ==> file_lists(
            #[trigger] files[i],
            parts[public_positions(parts)[i]].max_size,
            max_body_size,
            sets[i],
        )
}

/// Whether `file` is the substring definition file (see
/// [`substr_def_file_text`]) of the transitions `set`, each listed once, in
/// some order.
pub open spec fn file_lists(file: String, max_size: usize, max_body_size: usize, set: Set<(usize, usize, bool)>) -> bool {
    exists|es: Seq<(usize, usize, bool)>|
        es.no_duplicates() && es.to_set() == set && file@ == #[trigger] substr_def_file_text(max_size, max_body_size, es)
}

/// Whether state `from` of the DFA has a transition to state `to`.
pub open spec fn dfa_step(ss: Seq<StateView>, from: usize, to: usize) -> bool {
    &&& from < ss.len()
    &&& ss[from as int].edges is Some
    &&& exists|j: int|
        0 <= j < ss[from as int].edges->0.len() && (#[trigger] ss[from as int].edges->0[j]).next == Some(to)
}

/// Whether every step of every accepting path, and the self-loop of every
/// state of `self_nodes`, is a transition of the DFA.
pub open spec fn steps_in_dfa(ss: Seq<StateView>, paths: Seq<Seq<usize>>, self_nodes: Seq<usize>) -> bool {
    &&& forall|p: int, t: int|
        0 <= p < paths.len() && 0 <= t < paths[p].len() ==> dfa_step(
            ss,
            #[trigger] forward_states(paths[p])[t],
            forward_states(paths[p])[t + 1],
        )
    &&& forall|k: int| 0 <= k < self_nodes.len() ==> dfa_step(ss, #[trigger] self_nodes[k], self_nodes[k])
}

/// Whether every transition `(from, to, _)` of the sets is a transition of the DFA.
pub open spec fn sets_in_dfa(ss: Seq<StateView>, sets: Seq<Set<(usize, usize, bool)>>) -> bool {
    forall|k: int, d: (usize, usize, bool)| 0 <= k < sets.len() && #[trigger] sets[k].contains(d) ==> dfa_step(ss, d.0, d.1)
}

/// Whether state `from` of the DFA has a transition to state `to` (see [`dfa_step`]).
fn has_dfa_step(dfa_val: &[DfaState], from: usize, to: usize) -> (r: bool)
    ensures
        r == dfa_step(states_view(dfa_val@), from, to),
{
    let ghost ss = states_view(dfa_val@);
    if from >= dfa_val.len() {
        return false;
    }
    assert(ss[from as int] == dfa_val@[from as int]@);
    match &dfa_val[from].edges {
        None => false,
        Some(edges) => {
            let ghost es = edges_view(edges@);
            assert(ss[from as int].edges == Some(es));
            let mut j: usize = 0;
            while j < edges.len()
                invariant
                    es == edges_view(edges@),
                    ss == states_view(dfa_val@),
                    from < ss.len(),
                    ss[from as int].edges == Some(es),
                    j <= edges@.len(),
                    forall|i: int| 0 <= i < j ==> (#[trigger] es[i]).next != Some(to),
                decreases edges.len() - j,
            {
                assert(es[j as int] == edges@[j as int]@);
                if edges[j].next == Some(to) {
                    assert(ss[from as int].edges->0[j as int].next == Some(to));
                    return true;
                }
                j = j + 1;
            }
            false
        },
    }
}

/// Whether every step of the paths and every self-loop is a DFA transition (see
/// [`steps_in_dfa`]).
fn check_steps_in_dfa(dfa_val: &[DfaState], paths: &[Vec<usize>], self_nodes: &[usize]) -> (r: bool)
    ensures
        r == steps_in_dfa(states_view(dfa_val@), paths_view(paths@), self_nodes@),
{
    let ghost ss = states_view(dfa_val@);
    let ghost pv = paths_view(paths@);
    let mut p: usize = 0;
    while p < paths.len()
        invariant
            ss == states_view(dfa_val@),
            pv == paths_view(paths@),
            p <= paths@.len(),
            forall|q: int, t: int|
                0 <= q < p && 0 <= t < pv[q].len() ==> dfa_step(
                    ss,
                    #[trigger] forward_states(pv[q])[t],
                    forward_states(pv[q])[t + 1],
                ),
        decreases paths.len() - p,
    {
        let path = &paths[p];
        let n = path.len();
        let ghost fs = forward_states(pv[p as int]);
        assert(pv[p as int] == path@);
        let mut t: usize = 0;
        while t < n
            invariant
                ss == states_view(dfa_val@),
                pv == paths_view(paths@),
                p < paths@.len(),
                n == path@.len(),
                pv[p as int] == path@,
                fs == forward_states(pv[p as int]),
                t <= n,
                forall|u: int| 0 <= u < t ==> dfa_step(ss, #[trigger] fs[u], fs[u + 1]),
            decreases n - t,
        {
            let from = if t == 0 {
                0
            } else {
                path[n - t]
            };
            let to = path[n - 1 - t];
            assert(fs[t as int] == from);
            assert(fs[t + 1] == to);
            if !has_dfa_step(dfa_val, from, to) {
                assert(!dfa_step(ss, forward_states(pv[p as int])[t as int], forward_states(pv[p as int])[t + 1]));
                return false;
            }
            t = t + 1;
        }
        assert forall|q: int, u: int| 0 <= q < p + 1 && 0 <= u < pv[q].len() implies dfa_step(
            ss,
            #[trigger] forward_states(pv[q])[u],
            forward_states(pv[q])[u + 1],
        ) by {
            if q == p {
                assert(fs[u] == forward_states(pv[q])[u]);
            }
        }
        p = p + 1;
    }
    let mut k: usize = 0;
    while k < self_nodes.len()
        invariant
            ss == states_view(dfa_val@),
            k <= self_nodes@.len(),
            forall|i: int| 0 <= i < k ==> dfa_step(ss, #[trigger] self_nodes@[i], self_nodes@[i]),
        decreases self_nodes.len() - k,
    {
        if !has_dfa_step(dfa_val, self_nodes[k], self_nodes[k]) {
            return false;
        }
        k = k + 1;
    }
    true
}

/// The transitions of a span are steps of the path.
proof fn lemma_span_defs_steps(states: Seq<usize>, start: int, end: int, d: (usize, usize, bool))
    requires
        0 <= start <= end < states.len(),
        span_defs(states, start, end).contains(d),
    ensures
        exists|t: int| 0 <= t < states.len() - 1 && d.0 == #[trigger] states[t] && d.1 == states[t + 1],
{
    let u = choose|u: int| 0 <= u < end - start && d == #[trigger] span_pair(states, start, end, u);
    assert(d.0 == states[start + u] && d.1 == states[start + u + 1]);
}

/// Recording paths whose steps are DFA transitions adds only DFA transitions.
proof fn lemma_record_paths_in_dfa(
    ss: Seq<StateView>,
    before: Seq<Set<(usize, usize, bool)>>,
    paths: Seq<Seq<usize>>,
    labels: Seq<Seq<Seq<char>>>,
    patterns: Seq<Seq<char>>,
    publics: Seq<usize>,
)
    requires
        before.len() == publics.len(),
        sets_in_dfa(ss, before),
        forall|p: int|
            0 <= p < paths.len() ==> substr_defs_ok(
                forward_states(#[trigger] paths[p]),
                labels[p],
                patterns,
                publics,
                publics.len(),
            ),
        forall|p: int, t: int|
            0 <= p < paths.len() && 0 <= t < paths[p].len() ==> dfa_step(
                ss,
                #[trigger] forward_states(paths[p])[t],
                forward_states(paths[p])[t + 1],
            ),
    ensures
        record_paths(before, paths, labels, patterns, publics).len() == before.len(),
        sets_in_dfa(ss, record_paths(before, paths, labels, patterns, publics)),
    decreases paths.len(),
{
    if paths.len() > 0 {
        let last = paths.len() - 1;
        let prefix = paths.drop_last();
        assert forall|p: int| 0 <= p < prefix.len() implies substr_defs_ok(
            forward_states(#[trigger] prefix[p]),
            labels[p],
            patterns,
            publics,
            publics.len(),
        ) by {
            assert(prefix[p] == paths[p]);
        }
        assert forall|p: int, t: int| 0 <= p < prefix.len() && 0 <= t < prefix[p].len() implies dfa_step(
            ss,
            #[trigger] forward_states(prefix[p])[t],
            forward_states(prefix[p])[t + 1],
        ) by {
            assert(prefix[p] == paths[p]);
        }
        lemma_record_paths_in_dfa(ss, before, prefix, labels, patterns, publics);
        let mid = record_paths(before, prefix, labels, patterns, publics);
        let states = forward_states(paths[last]);
        let strs = labels[last];
        assert(substr_defs_ok(forward_states(paths[last]), labels[last], patterns, publics, publics.len()));
        let ends = match_ends(patterns, path_text(strs));
        let after = record_path(mid, states, strs, patterns, publics);
        assert(states.len() == paths[last].len() + 1);
        assert forall|k: int, d: (usize, usize, bool)| 0 <= k < after.len() && #[trigger] after[k].contains(d) implies dfa_step(
            ss,
            d.0,
            d.1,
        ) by {
            if !mid[k].contains(d) {
                assert(k < publics.len());
                assert(publics[k] < patterns.len());
                lemma_span_defs_steps(states, span_start(ends, publics[k]), ends[publics[k] as int] as int, d);
                let t = choose|t: int| 0 <= t < states.len() - 1 && d.0 == #[trigger] states[t] && d.1 == states[t + 1];
                assert(dfa_step(ss, forward_states(paths[last])[t], forward_states(paths[last])[t + 1]));
            }
        }
    }
}

/// Adding self-loops of states whose self-loop is a DFA transition adds only DFA transitions.
proof fn lemma_self_loops_in_dfa(ss: Seq<StateView>, sets: Seq<Set<(usize, usize, bool)>>, self_nodes: Seq<usize>)
    requires
        sets_in_dfa(ss, sets),
        forall|k: int| 0 <= k < self_nodes.len() ==> dfa_step(ss, #[trigger] self_nodes[k], self_nodes[k]),
    ensures
        sets_in_dfa(ss, with_self_loops(sets, self_nodes)),
{
    let w = with_self_loops(sets, self_nodes);
    assert forall|k: int, d: (usize, usize, bool)| 0 <= k < w.len() && #[trigger] w[k].contains(d) implies dfa_step(ss, d.0, d.1) by {
        if !sets[k].contains(d) {
            let j = choose|j: int|
                0 <= j < self_nodes.len() && d == (self_nodes[j], self_nodes[j], false) && touches_unmarked(
                    sets[k],
                    #[trigger] self_nodes[j],
                );
            assert(dfa_step(ss, self_nodes[j], self_nodes[j]));
        }
    }
}

impl EntryConfig {
    /// The substring definition files of rule `id`, one per public part, from
    /// the accepting paths found in the graph and the self-looping states (see
    /// [`EntryConfig::substr_defs_of_paths`]). `formatted` holds each part's
    /// regex in printable form; the regexes of [`part_patterns`] locate the
    /// parts on a path. Every step of the paths and every self-loop is checked
    /// against the transitions of the DFA `dfa_val`, so that every transition
    /// listed in a file is one of the DFA (see [`sets_in_dfa`]). An error when
    /// one of the regexes does not compile; `None` where a step or self-loop is
    /// not a DFA transition, where a path cannot be recorded, or where there is a
    /// public part and the body size limit is 0.
    pub fn substr_files_for_one_rule(
        &self,
        id: usize,
        formatted: &[String],
        dfa_val: &[DfaState],
        graph: &Graph<bool, char, Directed, usize>,
        paths: &[Vec<usize>],
        self_nodes: &[usize],
    ) -> (r: Result<Option<Vec<String>>, RegexDefError>)
        requires
            self.rules@.contains_key(id),
            formatted@.len() == self.rules_view()[id].len(),
        ensures
            ({
                let parts = self.rules_view()[id];
                let pats = part_patterns(strings_view(formatted@));
                let publics = public_indexes(parts);
                let sets = with_self_loops(
                    record_paths(
                        empty_sets(publics.len()),
                        paths_view(paths@),
                        all_path_labels(*graph, paths_view(paths@)),
                        pats,
                        publics,
                    ),
                    self_nodes@,
                );
                let steps = steps_in_dfa(states_view(dfa_val@), paths_view(paths@), self_nodes@);
                let fit = paths_fit(*graph, paths_view(paths@), pats, publics);
                let no_body = publics.len() > 0 && self.max_body_size == 0;
                match r {
                    Err(e) => !patterns_compile(strings_view(formatted@)),
                    Ok(None) => patterns_compile(strings_view(formatted@)) && (!steps || !fit || no_body),
                    Ok(Some(files)) => patterns_compile(strings_view(formatted@)) && steps && fit && !no_body
                        && substr_files_hold(files@, parts, self.max_body_size, sets) && sets_in_dfa(
                        states_view(dfa_val@),
                        sets,
                    ),
                }
            }),
    {
        let parts = self.rule_parts(id);
        let ghost pv = parts_view(parts@);
        let ghost fv = strings_view(formatted@);
        let mut part_regexes: Vec<PartRegex> = Vec::new();
        let mut publics: Vec<usize> = Vec::new();
        let mut idx: usize = 0;
        proof {
            lemma_part_patterns_take(fv, 0);
            assert(pv.take(0) =~= Seq::<BodyPartView>::empty());
            assert(publics@.map_values(|i: usize| i as int) =~= public_positions(pv.take(0)));
        }
        while idx < parts.len()
            invariant
                pv == parts_view(parts@),
                pv == self.rules_view()[id],
                fv == strings_view(formatted@),
                fv.len() == pv.len(),
                idx <= pv.len(),
                patterns_view(part_regexes@) == part_patterns(fv).take(idx as int),
                part_patterns(fv).len() == fv.len(),
                forall|k: int| 0 <= k < idx ==> regex_compiles(#[trigger] part_patterns(fv)[k]),
                publics@.map_values(|i: usize| i as int) == public_positions(pv.take(idx as int)),
                forall|k: int| 0 <= k < publics@.len() ==> #[trigger] publics@[k] < idx,
            decreases parts.len() - idx,
        {
            proof {
                lemma_part_patterns_take(fv, idx as int);
                lemma_part_patterns_take(fv, idx + 1);
                assert(fv.take(idx + 1).drop_last() =~= fv.take(idx as int));
                assert(fv.take(idx + 1).last() == fv[idx as int]);
                assert(fv[idx as int] == formatted@[idx as int]@);
                lemma_public_positions_take(pv, idx as int);
                assert(pv[idx as int] == parts@[idx as int]@);
                let c = part_patterns(fv.take(idx as int));
                assert(part_patterns(fv.take(idx + 1)) == c.push(next_pattern(c, fv[idx as int])));
                assert(part_patterns(fv)[idx as int] == part_patterns(fv.take(idx + 1))[idx as int]);
                assert(patterns_view(part_regexes@) == c);
            }
            if parts[idx].is_public {
                let ghost before = publics@;
                publics.push(idx);
                assert(publics@.map_values(|i: usize| i as int) =~= before.map_values(|i: usize| i as int).push(idx as int));
            }
            match push_part_regex(&mut part_regexes, formatted[idx].as_str()) {
                Err(e) => {
                    assert(!regex_compiles(part_patterns(fv)[idx as int]));
                    return Err(e);
                },
                Ok(()) => {},
            }
            assert(patterns_view(part_regexes@) =~= part_patterns(fv).take(idx + 1));
            idx = idx + 1;
        }
        let ghost pats = part_patterns(fv);
        proof {
            assert(pv.take(idx as int) =~= pv);
            assert(part_patterns(fv).take(idx as int) =~= pats);
            assert(publics@ =~= public_indexes(pv)) by {
                assert forall|k: int| 0 <= k < publics@.len() implies publics@[k] == #[trigger] public_indexes(pv)[k] by {
                    assert(publics@.map_values(|i: usize| i as int)[k] == publics@[k] as int);
                }
            }
        }
        if !check_steps_in_dfa(dfa_val, paths, self_nodes) {
            return Ok(None);
        }
        let defs = match self.substr_defs_of_paths(graph, paths, part_regexes.as_slice(), publics.as_slice(), self_nodes) {
            Some(d) => d,
            None => {
                return Ok(None);
            },
        };
        let ghost ss = states_view(dfa_val@);
        let ghost labels = all_path_labels(*graph, paths_view(paths@));
        proof {
            let base = empty_sets(publics@.len());
            let ppv = paths_view(paths@);
            assert(sets_in_dfa(ss, base));
            assert forall|q: int| 0 <= q < ppv.len() implies substr_defs_ok(
                forward_states(#[trigger] ppv[q]),
                labels[q],
                pats,
                publics@,
                publics@.len(),
            ) by {
                assert(!path_fails(*graph, ppv[q], pats, publics@));
            }
            lemma_record_paths_in_dfa(ss, base, ppv, labels, pats, publics@);
            lemma_self_loops_in_dfa(ss, record_paths(base, ppv, labels, pats, publics@), self_nodes@);
        }
        if publics.len() > 0 && self.max_body_size == 0 {
            return Ok(None);
        }
        let nparts = parts.len();
        let mut files: Vec<String> = Vec::new();
        let mut i: usize = 0;
        proof {
            lemma_public_positions_valid(pv);
        }
        while i < publics.len()
            invariant
                pv == parts_view(parts@),
                pv.len() == nparts,
                publics@ == public_indexes(pv),
                defs@.len() == publics@.len(),
                publics@.len() > 0 ==> self.max_body_size > 0,
                i <= publics@.len(),
                files@.len() == i,
                forall|j: int| 0 <= j < public_positions(pv).len() ==> 0 <= #[trigger] public_positions(pv)[j] < pv.len(),
                forall|j: int|
                    0 <= j < i ==> file_lists(
                        #[trigger] files@[j],
                        pv[public_positions(pv)[j]].max_size,
                        self.max_body_size,
                        defs@[j]@,
                    ),
            decreases publics.len() - i,
        {
            let index = publics[i];
            assert(0 <= public_positions(pv)[i as int] < nparts);
            assert(public_indexes(pv)[i as int] == public_positions(pv)[i as int] as usize);
            assert(index as int == public_positions(pv)[i as int]);
            let entries = defs[i].entries();
            let ghost order = defs@[i as int].order();
            assert(order.no_duplicates() && order.to_set() == defs@[i as int]@);
            assert(pv[index as int] == parts@[index as int]@);
            let file = self.substr_def_file(parts[index].max_size, &defs[i]);
            let ghost before = files@;
            files.push(file);
            assert(files@[i as int]@ == substr_def_file_text(pv[public_positions(pv)[i as int]].max_size, self.max_body_size, order));
            assert forall|j: int|
                0 <= j < i + 1 implies file_lists(
                    #[trigger] files@[j],
                    pv[public_positions(pv)[j]].max_size,
                    self.max_body_size,
                    defs@[j]@,
                ) by {
                if j < i {
                    assert(files@[j] == before[j]);
                } else {
                    assert(order.no_duplicates() && order.to_set() == defs@[j]@ && files@[j]@ == substr_def_file_text(
                        pv[public_positions(pv)[j]].max_size,
                        self.max_body_size,
                        order,
                    ));
                }
            }
            i = i + 1;
        }
        assert forall|j: int|
            0 <= j < files@.len() implies file_lists(
                #[trigger] files@[j],
                pv[public_positions(pv)[j]].max_size,
                self.max_body_size,
                defs_view(defs@)[j],
            ) by {
            assert(defs_view(defs@)[j] == defs@[j]@);
        }
        assert(substr_files_hold(files@, pv, self.max_body_size, defs_view(defs@)));
        Ok(Some(files))
    }
}

} // verus!
