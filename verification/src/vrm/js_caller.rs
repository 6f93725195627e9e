use crate::json::{json_string_list, parse_string_list, strings_view};
use crate::text::{is_one_byte, lemma_encode_utf8_len, has_pair, lemma_replace_absent_pair, decimal, push_decimal, push_str, replace_all, replace_str, str_eq, string_from_chars};
use crate::graph::{graph_add_edge, graph_add_node, graph_edges, graph_node_count, graph_nodes};
use petgraph::graph::Graph;
use petgraph::Directed;
use vstd::prelude::*;
use vstd::utf8::encode_utf8;

verus! {

/// What went wrong while reading a DFA description.
#[derive(Debug, Clone, Copy, PartialEq, Eq)]
pub enum DfaError {
    /// No state is marked `"accept"`.
    NoAcceptedState,
    /// The `edges` of a state are not a JSON object.
    EdgesNotObject,
    /// The target of an edge is not an unsigned integer.
    NextNotU64,
    /// The key of an edge is not a JSON array of strings.
    KeyNotStringList,
}

/// The message of each DFA error.
pub open spec fn dfa_error_text(e: DfaError) -> Seq<char> {
    match e {
        DfaError::NoAcceptedState => "No accepted state"@,
        DfaError::EdgesNotObject => "Edges are not object"@,
        DfaError::NextNotU64 => "next node value is not u64"@,
        DfaError::KeyNotStringList => "serde_json from_str error"@,
    }
}

impl DfaError {
    /// The message that describes the error (see [`dfa_error_text`]).
    pub fn message(&self) -> (s: String)
        ensures
            s@ == dfa_error_text(*self),
    {
        match self {
            DfaError::NoAcceptedState => String::from_str("No accepted state"),
            DfaError::EdgesNotObject => String::from_str("Edges are not object"),
            DfaError::NextNotU64 => String::from_str("next node value is not u64"),
            DfaError::KeyNotStringList => String::from_str("serde_json from_str error"),
        }
    }
}

/// One entry of a state's `edges` object: the key (a JSON array of one-character
/// strings, as text) and the target state when it is an unsigned integer.
pub struct DfaEdge {
    pub key: String,
    pub next: Option<usize>,
}

/// One state of a DFA description: its `type` when that is a string, and its
/// `edges` when they are an object.
pub struct DfaState {
    pub kind: Option<String>,
    pub edges: Option<Vec<DfaEdge>>,
}

/// The mathematical form of a [`DfaEdge`].
pub struct EdgeView {
    pub key: Seq<char>,
    pub next: Option<usize>,
}

/// The mathematical form of a [`DfaState`].
pub struct StateView {
    pub kind: Option<Seq<char>>,
    pub edges: Option<Seq<EdgeView>>,
}

impl View for DfaEdge {
    type V = EdgeView;

    open spec fn view(&self) -> EdgeView {
        EdgeView { key: self.key@, next: self.next }
    }
}

pub open spec fn edges_view(es: Seq<DfaEdge>) -> Seq<EdgeView> {
    es.map_values(|e: DfaEdge| e@)
}

impl View for DfaState {
    type V = StateView;

    open spec fn view(&self) -> StateView {
        StateView {
            kind: match self.kind {
                Some(k) => Some(k@),
                None => None,
            },
            edges: match self.edges {
                Some(es) => Some(edges_view(es@)),
                None => None,
            },
        }
    }
}

pub open spec fn states_view(ss: Seq<DfaState>) -> Seq<StateView> {
    ss.map_values(|s: DfaState| s@)
}

/// A state is accepting when its `type` is the string `accept`.
pub open spec fn is_accept(s: StateView) -> bool {
    s.kind == Some(seq!['a', 'c', 'c', 'e', 'p', 't'])
}

/// The first accepting state at index `i` or later.
pub open spec fn first_accept_from(ss: Seq<StateView>, i: int) -> Option<usize>
    decreases ss.len() - i,
{
    if i < 0 || i >= ss.len() {
        None
    } else if is_accept(ss[i]) {
        Some(i as usize)
    } else {
        first_accept_from(ss, i + 1)
    }
}

/// The largest target of the edges `es`, starting from `acc`, or the error of
/// the first edge whose target is not an unsigned integer.
pub open spec fn edges_max(es: Seq<EdgeView>, acc: usize) -> Result<usize, DfaError>
    decreases es.len(),
{
    if es.len() == 0 {
        Ok(acc)
    } else {
        match es[0].next {
            None => Err(DfaError::NextNotU64),
            Some(t) => edges_max(es.drop_first(), if t > acc { t } else { acc }),
        }
    }
}

/// The largest edge target of the states `ss`, starting from `acc`, or the
/// first error met in state order.
pub open spec fn states_max(ss: Seq<StateView>, acc: usize) -> Result<usize, DfaError>
    decreases ss.len(),
{
    if ss.len() == 0 {
        Ok(acc)
    } else {
        match ss[0].edges {
            None => Err(DfaError::EdgesNotObject),
            Some(es) => match edges_max(es, acc) {
                Ok(a) => states_max(ss.drop_first(), a),
                Err(e) => Err(e),
            },
        }
    }
}

/// Index of the first state whose `type` is `accept`.
pub fn get_accepted_state(dfa_val: &[DfaState]) -> (r: Option<usize>)
    ensures
        r == first_accept_from(states_view(dfa_val@), 0),
        r matches Some(i) ==> i < dfa_val@.len() && is_accept(dfa_val@[i as int]@) && forall|j: int|
            0 <= j < i ==> !is_accept(#[trigger] dfa_val@[j]@),
        r is None ==> forall|j: int| 0 <= j < dfa_val@.len() ==> !is_accept(#[trigger] dfa_val@[j]@),
{
    let ghost ss = states_view(dfa_val@);
    let mut i: usize = 0;
    while i < dfa_val.len()
        invariant
            ss == states_view(dfa_val@),
            i <= dfa_val@.len(),
            first_accept_from(ss, 0) == first_accept_from(ss, i as int),
            forall|j: int| 0 <= j < i ==> !is_accept(#[trigger] dfa_val@[j]@),
        decreases dfa_val.len() - i,
    {
        let accept = match &dfa_val[i].kind {
            Some(k) => str_eq(k.as_str(), "accept"),
            None => false,
        };
        proof {
            reveal_strlit("accept");
            assert("accept"@ =~= seq!['a', 'c', 'c', 'e', 'p', 't']);
            assert(ss[i as int] == dfa_val@[i as int]@);
            assert(accept == is_accept(ss[i as int]));
        }
        if accept {
            return Some(i);
        }
        i = i + 1;
    }
    None
}

/// The largest target state named by any edge (0 when there is none), or the
/// first malformed entry met while scanning states and edges in order.
pub fn get_max_state(dfa_val: &[DfaState]) -> (r: Result<usize, DfaError>)
    ensures
        r == states_max(states_view(dfa_val@), 0),
{
    let ghost ss = states_view(dfa_val@);
    let mut max_state: usize = 0;
    let mut i: usize = 0;
    assert(ss.skip(0) =~= ss);
    while i < dfa_val.len()
        invariant
            ss == states_view(dfa_val@),
            i <= dfa_val@.len(),
            states_max(ss, 0) == states_max(ss.skip(i as int), max_state),
        decreases dfa_val.len() - i,
    {
        assert(ss.skip(i as int)[0] == dfa_val@[i as int]@);
        assert(ss.skip(i as int).drop_first() =~= ss.skip(i + 1));
        match &dfa_val[i].edges {
            None => {
                return Err(DfaError::EdgesNotObject);
            },
            Some(edges) => {
                let ghost es = edges_view(edges@);
                let ghost acc0 = max_state;
                assert(ss.skip(i as int)[0].edges == Some(es));
                let mut j: usize = 0;
                assert(es.skip(0) =~= es);
                while j < edges.len()
                    invariant
                        es == edges_view(edges@),
                        ss == states_view(dfa_val@),
                        i < dfa_val@.len(),
                        ss.skip(i as int)[0].edges == Some(es),
                        states_max(ss, 0) == states_max(ss.skip(i as int), acc0),
                        j <= edges@.len(),
                        edges_max(es, acc0) == edges_max(es.skip(j as int), max_state),
                    decreases edges.len() - j,
                {
                    assert(es.skip(j as int)[0] == edges@[j as int]@);
                    assert(es.skip(j as int).drop_first() =~= es.skip(j + 1));
                    match edges[j].next {
                        None => {
                            assert(edges_max(es.skip(j as int), max_state) == Err::<usize, DfaError>(DfaError::NextNotU64));
                            return Err(DfaError::NextNotU64);
                        },
                        Some(next_node) => {
                            if next_node > max_state {
                                max_state = next_node;
                            }
                        },
                    }
                    j = j + 1;
                }
            },
        }
        i = i + 1;
    }
    Ok(max_state)
}

/// How a scan that writes text ends: with the text, with an error, or at a
/// step that cannot be carried out (`Panic`).
pub enum Scan {
    Out(Seq<char>),
    Fail(DfaError),
    Panic,
}

/// `pre` written before whatever `rest` writes.
pub open spec fn prepend(pre: Seq<char>, rest: Scan) -> Scan {
    match rest {
        Scan::Out(t) => Scan::Out(pre + t),
        other => other,
    }
}

/// `first` followed by `rest`, stopping at the first error or panic.
pub open spec fn then(first: Scan, rest: Scan) -> Scan {
    match first {
        Scan::Out(t) => prepend(t, rest),
        other => other,
    }
}

/// The outcome that a `Result` stands for.
pub open spec fn result_scan(r: Result<String, DfaError>) -> Scan {
    match r {
        Ok(s) => Scan::Out(s@),
        Err(e) => Scan::Fail(e),
    }
}

/// One line of the regex definition text: source state, target state and the
/// low byte of the character, in decimal.
pub open spec fn edge_line(from: nat, to: nat, c: char) -> Seq<char> {
    decimal(from) + seq![' '] + decimal(to) + seq![' '] + decimal((c as u8) as nat) + seq!['\n']
}

/// The lines for the one-character strings `keys` of an edge from `from` to `next`.
/// An empty string has no first character: the scan cannot go on there.
pub open spec fn key_lines(from: nat, next: Option<usize>, keys: Seq<Seq<char>>) -> Scan
    decreases keys.len(),
{
    if keys.len() == 0 {
        Scan::Out(seq![])
    } else if keys[0].len() == 0 {
        Scan::Panic
    } else {
        match next {
            None => Scan::Fail(DfaError::NextNotU64),
            Some(n) => prepend(edge_line(from, n as nat, keys[0][0]), key_lines(from, next, keys.drop_first())),
        }
    }
}

/// The lines for the edges `es` of state `from`.
pub open spec fn edge_lines(from: nat, es: Seq<EdgeView>) -> Scan
    decreases es.len(),
{
    if es.len() == 0 {
        Scan::Out(seq![])
    } else {
        match json_string_list(es[0].key) {
            None => Scan::Fail(DfaError::KeyNotStringList),
            Some(keys) => then(key_lines(from, es[0].next, keys), edge_lines(from, es.drop_first())),
        }
    }
}

/// The lines for the states of `ss` from index `i` on.
pub open spec fn state_lines(ss: Seq<StateView>, i: int) -> Scan
    decreases ss.len() - i,
{
    if i < 0 || i >= ss.len() {
        Scan::Out(seq![])
    } else {
        match ss[i].edges {
            None => Scan::Fail(DfaError::EdgesNotObject),
            Some(es) => then(edge_lines(i as nat, es), state_lines(ss, i + 1)),
        }
    }
}

/// The regex definition text of a DFA: `0`, the accepting state and the largest
/// state on lines of their own, then one line per edge character.
pub open spec fn regex_def_text(ss: Seq<StateView>) -> Scan {
    match first_accept_from(ss, 0) {
        None => Scan::Fail(DfaError::NoAcceptedState),
        Some(a) => match states_max(ss, 0) {
            Err(e) => Scan::Fail(e),
            Ok(m) => prepend(
                seq!['0', '\n'] + decimal(a as nat) + seq!['\n'] + decimal(m as nat) + seq!['\n'],
                state_lines(ss, 0),
            ),
        },
    }
}

proof fn lemma_prepend_prepend(a: Seq<char>, b: Seq<char>, x: Scan)
    ensures
        prepend(a, prepend(b, x)) == prepend(a + b, x),
{
    match x {
        Scan::Out(t) => {
            assert(a + (b + t) =~= (a + b) + t);
        },
        _ => {},
    }
}

proof fn lemma_then_assoc(a: Scan, b: Scan, c: Scan)
    ensures
        then(then(a, b), c) == then(a, then(b, c)),
{
    match a {
        Scan::Out(t) => {
            match b {
                Scan::Out(u) => {
                    lemma_prepend_prepend(t, u, c);
                },
                _ => {},
            }
        },
        _ => {},
    }
}

proof fn lemma_then_prepend(l: Seq<char>, x: Scan, y: Scan)
    ensures
        then(prepend(l, x), y) == prepend(l, then(x, y)),
{
    match x {
        Scan::Out(t) => {
            lemma_prepend_prepend(l, t, y);
        },
        _ => {},
    }
}

proof fn lemma_prepend_empty(x: Scan)
    ensures
        prepend(seq![], x) == x,
{
    match x {
        Scan::Out(t) => {
            assert(Seq::<char>::empty() + t =~= t);
        },
        _ => {},
    }
}

/// Writes the regex definition text, stopping with `None` where it cannot be
/// written (an edge key holding an empty string).
fn render_regex_def_text(dfa_val: &[DfaState]) -> (r: Option<Result<String, DfaError>>)
    ensures
        match r {
            Some(res) => regex_def_text(states_view(dfa_val@)) == result_scan(res),
            None => regex_def_text(states_view(dfa_val@)) is Panic,
        },
{
    let ghost ss = states_view(dfa_val@);
    let accepted_state = match get_accepted_state(dfa_val) {
        None => {
            return Some(Err(DfaError::NoAcceptedState));
        },
        Some(a) => a,
    };
    let max_state = match get_max_state(dfa_val) {
        Err(e) => {
            return Some(Err(e));
        },
        Ok(m) => m,
    };
    let mut text: Vec<char> = Vec::new();
    text.push('0');
    text.push('\n');
    push_decimal(&mut text, accepted_state);
    text.push('\n');
    push_decimal(&mut text, max_state);
    text.push('\n');
    assert(text@ =~= seq!['0', '\n'] + decimal(accepted_state as nat) + seq!['\n'] + decimal(
        max_state as nat,
    ) + seq!['\n']);
    let mut i: usize = 0;
    while i < dfa_val.len()
        invariant
            ss == states_view(dfa_val@),
            i <= dfa_val@.len(),
            regex_def_text(ss) == prepend(text@, state_lines(ss, i as int)),
        decreases dfa_val.len() - i,
    {
        assert(ss[i as int] == dfa_val@[i as int]@);
        match &dfa_val[i].edges {
            None => {
                return Some(Err(DfaError::EdgesNotObject));
            },
            Some(edges) => {
                let ghost es = edges_view(edges@);
                let ghost rest = state_lines(ss, i + 1);
                let mut j: usize = 0;
                assert(es.skip(0) =~= es);
                while j < edges.len()
                    invariant
                        es == edges_view(edges@),
                        ss == states_view(dfa_val@),
                        i < dfa_val@.len(),
                        rest == state_lines(ss, i + 1),
                        j <= edges@.len(),
                        regex_def_text(ss) == prepend(
                            text@,
                            then(edge_lines(i as nat, es.skip(j as int)), rest),
                        ),
                    decreases edges.len() - j,
                {
                    let ghost tail = es.skip(j as int);
                    assert(tail[0] == edges@[j as int]@);
                    assert(tail.drop_first() =~= es.skip(j + 1));
                    let edge = &edges[j];
                    let key_list = match parse_string_list(edge.key.as_str()) {
                        None => {
                            return Some(Err(DfaError::KeyNotStringList));
                        },
                        Some(l) => l,
                    };
                    let ghost keys = strings_view(key_list@);
                    let ghost after = then(edge_lines(i as nat, es.skip(j + 1)), rest);
                    let mut k: usize = 0;
                    proof {
                        assert(keys.skip(0) =~= keys);
                        assert(json_string_list(tail[0].key) == Some(keys));
                        assert(edge_lines(i as nat, tail) == then(
                            key_lines(i as nat, edge.next, keys),
                            edge_lines(i as nat, es.skip(j + 1)),
                        ));
                        lemma_then_assoc(
                            key_lines(i as nat, edge.next, keys),
                            edge_lines(i as nat, es.skip(j + 1)),
                            rest,
                        );
                    }
                    while k < key_list.len()
                        invariant
                            keys == strings_view(key_list@),
                            ss == states_view(dfa_val@),
                            regex_def_text(ss) == prepend(
                                text@,
                                then(key_lines(i as nat, edge.next, keys.skip(k as int)), after),
                            ),
                            k <= key_list@.len(),
                        decreases key_list.len() - k,
                    {
                        let ghost ktail = keys.skip(k as int);
                        assert(ktail[0] == key_list@[k as int]@);
                        assert(ktail.drop_first() =~= keys.skip(k + 1));
                        let key_char = &key_list[k];
                        if key_char.as_str().unicode_len() == 0 {
                            assert(key_lines(i as nat, edge.next, ktail) is Panic);
                            return None;
                        }
                        let c = key_char.as_str().get_char(0);
                        match edge.next {
                            None => {
                                assert(key_lines(i as nat, edge.next, ktail) == Scan::Fail(DfaError::NextNotU64));
                                return Some(Err(DfaError::NextNotU64));
                            },
                            Some(next_node) => {
                                let ghost before = text@;
                                push_decimal(&mut text, i);
                                text.push(' ');
                                push_decimal(&mut text, next_node);
                                text.push(' ');
                                let b = #[verifier::truncate] (c as u8);
                                push_decimal(&mut text, b as usize);
                                text.push('\n');
                                proof {
                                    let line = edge_line(i as nat, next_node as nat, c);
                                    assert(text@ =~= before + line);
                                    assert(ktail[0][0] == c);
                                    assert(key_lines(i as nat, edge.next, ktail) == prepend(line, key_lines(i as nat, edge.next, keys.skip(k + 1))));
                                    lemma_then_prepend(line, key_lines(i as nat, edge.next, keys.skip(k + 1)), after);
                                    lemma_prepend_prepend(before, line, then(key_lines(i as nat, edge.next, keys.skip(k + 1)), after));
                                }
                            },
                        }
                        k = k + 1;
                    }
                    proof {
                        assert(keys.skip(k as int) =~= Seq::<Seq<char>>::empty());
                        lemma_prepend_empty(after);
                    }
                    j = j + 1;
                }
                proof {
                    assert(es.skip(j as int) =~= Seq::<EdgeView>::empty());
                    lemma_prepend_empty(rest);
                }
            },
        }
        i = i + 1;
    }
    proof {
        assert(text@ + Seq::<char>::empty() =~= text@);
    }
    Some(Ok(string_from_chars(text.as_slice())))
}

/// The regex definition text of a DFA (see [`regex_def_text`]), on inputs where
/// it can be written.
pub fn dfa_to_regex_def_text(dfa_val: &[DfaState]) -> (r: Result<String, DfaError>)
    requires
        !(regex_def_text(states_view(dfa_val@)) is Panic),
    ensures
        regex_def_text(states_view(dfa_val@)) == result_scan(r),
{
    match render_regex_def_text(dfa_val) {
        Some(res) => res,
        None => {
            assert(false);
            Err(DfaError::KeyNotStringList)
        },
    }
}

/// The regex definition text of a DFA, or `None` on the inputs where it cannot
/// be written (an edge key holding an empty string).
pub fn try_dfa_to_regex_def_text(dfa_val: &[DfaState]) -> (r: Option<Result<String, DfaError>>)
    ensures
        match r {
            Some(res) => regex_def_text(states_view(dfa_val@)) == result_scan(res),
            None => regex_def_text(states_view(dfa_val@)) is Panic,
        },
{
    match render_regex_def_text(dfa_val) {
        None => None,
        Some(_) => Some(dfa_to_regex_def_text(dfa_val)),
    }
}

/// How adding the edges of a DFA to a graph ends: with the edges added, or with
/// an error after some edges were added, or at an edge that cannot be added
/// (`Panic`).
pub enum EdgeScan {
    Added(Seq<(usize, usize, char)>),
    Stopped(Seq<(usize, usize, char)>, DfaError),
    Panic,
}

/// The edges `pre` added before whatever `rest` adds.
pub open spec fn eprepend(pre: Seq<(usize, usize, char)>, rest: EdgeScan) -> EdgeScan {
    match rest {
        EdgeScan::Added(l) => EdgeScan::Added(pre + l),
        EdgeScan::Stopped(l, e) => EdgeScan::Stopped(pre + l, e),
        EdgeScan::Panic => EdgeScan::Panic,
    }
}

/// `first` followed by `rest`, stopping at the first error or panic.
pub open spec fn ethen(first: EdgeScan, rest: EdgeScan) -> EdgeScan {
    match first {
        EdgeScan::Added(l) => eprepend(l, rest),
        other => other,
    }
}

/// The edges for the key strings `keys` of a DFA transition from `from` to `to`,
/// each added reversed, from `to` to `from`, in a graph of `n` nodes. A key that
/// is not one byte long, or a node out of range, cannot be added.
pub open spec fn key_edges(from: usize, to: usize, keys: Seq<Seq<char>>, n: nat) -> EdgeScan
    decreases keys.len(),
{
    if keys.len() == 0 {
        EdgeScan::Added(seq![])
    } else if encode_utf8(keys[0]).len() != 1 || to >= n || from >= n {
        EdgeScan::Panic
    } else {
        eprepend(seq![(to, from, keys[0][0])], key_edges(from, to, keys.drop_first(), n))
    }
}

/// Whether a transition between states up to `last_max_state` is already in the graph.
pub open spec fn already_added(last_max_state: Option<usize>, from: usize, to: usize) -> bool {
    match last_max_state {
        Some(m) => from <= m && to <= m,
        None => false,
    }
}

/// The edges for the transitions `es` of state `from`.
pub open spec fn edge_adds(from: usize, es: Seq<EdgeView>, last_max_state: Option<usize>, n: nat) -> EdgeScan
    decreases es.len(),
{
    if es.len() == 0 {
        EdgeScan::Added(seq![])
    } else {
        match es[0].next {
            None => EdgeScan::Stopped(seq![], DfaError::NextNotU64),
            Some(to) => if already_added(last_max_state, from, to) {
                edge_adds(from, es.drop_first(), last_max_state, n)
            } else {
                match json_string_list(es[0].key) {
                    None => EdgeScan::Stopped(seq![], DfaError::KeyNotStringList),
                    Some(keys) => ethen(
                        key_edges(from, to, keys, n),
                        edge_adds(from, es.drop_first(), last_max_state, n),
                    ),
                }
            },
        }
    }
}

/// The edges for the states of `ss` from index `i` on.
pub open spec fn state_adds(ss: Seq<StateView>, i: int, last_max_state: Option<usize>, n: nat) -> EdgeScan
    decreases ss.len() - i,
{
    if i < 0 || i >= ss.len() {
        EdgeScan::Added(seq![])
    } else {
        match ss[i].edges {
            None => EdgeScan::Stopped(seq![], DfaError::EdgesNotObject),
            Some(es) => ethen(edge_adds(i as usize, es, last_max_state, n), state_adds(ss, i + 1, last_max_state, n)),
        }
    }
}

/// The first state that `add_graph_nodes` adds a node for.
pub open spec fn first_new_state(last_max_state: Option<usize>) -> nat {
    match last_max_state {
        Some(v) => (v + 1) as nat,
        None => 0,
    }
}

/// The weights of the nodes added for the states `first..=next_max_state`: only
/// the node of `next_max_state` is marked.
pub open spec fn new_node_weights(first: nat, next_max_state: nat) -> Seq<bool> {
    Seq::new(
        if first <= next_max_state { (next_max_state - first + 1) as nat } else { 0 },
        |k: int| first + k == next_max_state,
    )
}

/// The outcome of adding the DFA's edges to a graph of `n` nodes.
pub open spec fn graph_edge_scan(ss: Seq<StateView>, last_max_state: Option<usize>, n: nat) -> EdgeScan {
    state_adds(ss, 0, last_max_state, n)
}

proof fn lemma_eprepend_eprepend(a: Seq<(usize, usize, char)>, b: Seq<(usize, usize, char)>, x: EdgeScan)
    ensures
        eprepend(a, eprepend(b, x)) == eprepend(a + b, x),
{
    match x {
        EdgeScan::Added(t) => {
            assert(a + (b + t) =~= (a + b) + t);
        },
        EdgeScan::Stopped(t, e) => {
            assert(a + (b + t) =~= (a + b) + t);
        },
        _ => {},
    }
}

proof fn lemma_ethen_assoc(a: EdgeScan, b: EdgeScan, c: EdgeScan)
    ensures
        ethen(ethen(a, b), c) == ethen(a, ethen(b, c)),
{
    match a {
        EdgeScan::Added(t) => {
            match b {
                EdgeScan::Added(u) => {
                    lemma_eprepend_eprepend(t, u, c);
                },
                _ => {},
            }
        },
        _ => {},
    }
}

proof fn lemma_ethen_eprepend(l: Seq<(usize, usize, char)>, x: EdgeScan, y: EdgeScan)
    ensures
        ethen(eprepend(l, x), y) == eprepend(l, ethen(x, y)),
{
    match x {
        EdgeScan::Added(t) => {
            lemma_eprepend_eprepend(l, t, y);
        },
        _ => {},
    }
}

proof fn lemma_eprepend_empty(x: EdgeScan)
    ensures
        eprepend(seq![], x) == x,
{
    match x {
        EdgeScan::Added(t) => {
            assert(Seq::<(usize, usize, char)>::empty() + t =~= t);
        },
        EdgeScan::Stopped(t, e) => {
            assert(Seq::<(usize, usize, char)>::empty() + t =~= t);
        },
        _ => {},
    }
}

/// Whether a planned list of edges and its stop describe `s`.
pub open spec fn plan_describes(plan: Option<(Vec<(usize, usize, char)>, Option<DfaError>)>, s: EdgeScan) -> bool {
    match s {
        EdgeScan::Added(l) => plan matches Some((v, stop)) && v@ == l && stop is None,
        EdgeScan::Stopped(l, e) => plan matches Some((v, stop)) && v@ == l && stop == Some(e),
        EdgeScan::Panic => plan is None,
    }
}

/// Lists the edges that adding the DFA to a graph of `n` nodes adds, with the
/// error that stops it, or `None` where an edge cannot be added.
fn plan_graph_edges(dfa_val: &[DfaState], last_max_state: Option<usize>, n: usize) -> (plan: Option<(Vec<(usize, usize, char)>, Option<DfaError>)>)
    ensures
        plan_describes(plan, graph_edge_scan(states_view(dfa_val@), last_max_state, n as nat)),
        plan matches Some((v, stop)) ==> forall|k: int| 0 <= k < v@.len() ==> (#[trigger] v@[k]).0 < n && v@[k].1 < n,
{
    let ghost ss = states_view(dfa_val@);
    let mut out: Vec<(usize, usize, char)> = Vec::new();
    let mut i: usize = 0;
    proof {
        lemma_eprepend_empty(state_adds(ss, 0, last_max_state, n as nat));
    }
    while i < dfa_val.len()
        invariant
            ss == states_view(dfa_val@),
            i <= dfa_val@.len(),
            graph_edge_scan(ss, last_max_state, n as nat) == eprepend(out@, state_adds(ss, i as int, last_max_state, n as nat)),
            forall|k: int| 0 <= k < out@.len() ==> (#[trigger] out@[k]).0 < n && out@[k].1 < n,
        decreases dfa_val.len() - i,
    {
        assert(ss[i as int] == dfa_val@[i as int]@);
        match &dfa_val[i].edges {
            None => {
                assert(out@ + Seq::<(usize, usize, char)>::empty() =~= out@);
                return Some((out, Some(DfaError::EdgesNotObject)));
            },
            Some(edges) => {
                let ghost es = edges_view(edges@);
                let ghost rest = state_adds(ss, i + 1, last_max_state, n as nat);
                let mut j: usize = 0;
                assert(es.skip(0) =~= es);
                while j < edges.len()
                    invariant
                        es == edges_view(edges@),
                        ss == states_view(dfa_val@),
                        i < dfa_val@.len(),
                        rest == state_adds(ss, i + 1, last_max_state, n as nat),
                        j <= edges@.len(),
                        forall|k: int| 0 <= k < out@.len() ==> (#[trigger] out@[k]).0 < n && out@[k].1 < n,
                        graph_edge_scan(ss, last_max_state, n as nat) == eprepend(
                            out@,
                            ethen(edge_adds(i, es.skip(j as int), last_max_state, n as nat), rest),
                        ),
                    decreases edges.len() - j,
                {
                    let ghost tail = es.skip(j as int);
                    assert(tail[0] == edges@[j as int]@);
                    assert(tail.drop_first() =~= es.skip(j + 1));
                    let edge = &edges[j];
                    let next_node = match edge.next {
                        None => {
                            assert(out@ + Seq::<(usize, usize, char)>::empty() =~= out@);
                            return Some((out, Some(DfaError::NextNotU64)));
                        },
                        Some(t) => t,
                    };
                    let skip = match last_max_state {
                        Some(max) => i <= max && next_node <= max,
                        None => false,
                    };
                    if skip {
                        j = j + 1;
                        continue;
                    }
                    let key_list = match parse_string_list(edge.key.as_str()) {
                        None => {
                            assert(out@ + Seq::<(usize, usize, char)>::empty() =~= out@);
                            return Some((out, Some(DfaError::KeyNotStringList)));
                        },
                        Some(l) => l,
                    };
                    let ghost keys = strings_view(key_list@);
                    let ghost after = edge_adds(i, es.skip(j + 1), last_max_state, n as nat);
                    proof {
                        assert(json_string_list(tail[0].key) == Some(keys));
                        lemma_ethen_assoc(key_edges(i, next_node, keys, n as nat), after, rest);
                    }
                    let mut k: usize = 0;
                    assert(keys.skip(0) =~= keys);
                    while k < key_list.len()
                        invariant
                            keys == strings_view(key_list@),
                            ss == states_view(dfa_val@),
                            k <= key_list@.len(),
                            forall|m: int| 0 <= m < out@.len() ==> (#[trigger] out@[m]).0 < n && out@[m].1 < n,
                            graph_edge_scan(ss, last_max_state, n as nat) == eprepend(
                                out@,
                                ethen(key_edges(i, next_node, keys.skip(k as int), n as nat), ethen(after, rest)),
                            ),
                        decreases key_list.len() - k,
                    {
                        let ghost ktail = keys.skip(k as int);
                        assert(ktail[0] == key_list@[k as int]@);
                        assert(ktail.drop_first() =~= keys.skip(k + 1));
                        let key_char = &key_list[k];
                        if !is_one_byte(key_char.as_str()) || next_node >= n || i >= n {
                            return None;
                        }
                        proof {
                            lemma_encode_utf8_len(key_char@);
                        }
                        let c = key_char.as_str().get_char(0);
                        let ghost before = out@;
                        out.push((next_node, i, c));
                        proof {
                            assert(out@ =~= before + seq![(next_node, i, c)]);
                            assert(key_edges(i, next_node, ktail, n as nat) == eprepend(
                                seq![(next_node, i, c)],
                                key_edges(i, next_node, keys.skip(k + 1), n as nat),
                            ));
                            lemma_ethen_eprepend(
                                seq![(next_node, i, c)],
                                key_edges(i, next_node, keys.skip(k + 1), n as nat),
                                ethen(after, rest),
                            );
                            lemma_eprepend_eprepend(
                                before,
                                seq![(next_node, i, c)],
                                ethen(key_edges(i, next_node, keys.skip(k + 1), n as nat), ethen(after, rest)),
                            );
                        }
                        k = k + 1;
                    }
                    proof {
                        assert(keys.skip(k as int) =~= Seq::<Seq<char>>::empty());
                        lemma_eprepend_empty(ethen(after, rest));
                    }
                    j = j + 1;
                }
                proof {
                    assert(es.skip(j as int) =~= Seq::<EdgeView>::empty());
                    lemma_eprepend_empty(rest);
                }
            },
        }
        i = i + 1;
    }
    assert(out@ + Seq::<(usize, usize, char)>::empty() =~= out@);
    Some((out, None))
}

/// The number of nodes a graph of `n` nodes has once `add_graph_nodes` added its nodes.
pub open spec fn nodes_after(n: nat, last_max_state: Option<usize>, next_max_state: usize) -> nat {
    n + new_node_weights(first_new_state(last_max_state), next_max_state as nat).len()
}

/// Adds one node per state `first..=next_max_state` (where `first` follows
/// `last_max_state`), marking only the last, then every DFA transition whose
/// states are not both up to `last_max_state`, reversed, once per character of
/// its key. An error stops it after the edges added so far.
pub fn add_graph_nodes(
    dfa_val: &[DfaState],
    graph: &mut Graph<bool, char, Directed, usize>,
    last_max_state: Option<usize>,
    next_max_state: usize,
) -> (r: Result<(), DfaError>)
    requires
        last_max_state != Some(usize::MAX),
        nodes_after(graph_nodes(*old(graph)).len(), last_max_state, next_max_state) <= usize::MAX,
        !(graph_edge_scan(
            states_view(dfa_val@),
            last_max_state,
            nodes_after(graph_nodes(*old(graph)).len(), last_max_state, next_max_state),
        ) is Panic),
    ensures
        graph_nodes(*final(graph)) == graph_nodes(*old(graph)) + new_node_weights(
            first_new_state(last_max_state),
            next_max_state as nat,
        ),
        match graph_edge_scan(
            states_view(dfa_val@),
            last_max_state,
            nodes_after(graph_nodes(*old(graph)).len(), last_max_state, next_max_state),
        ) {
            EdgeScan::Added(l) => r is Ok && graph_edges(*final(graph)) == graph_edges(*old(graph)) + l,
            EdgeScan::Stopped(l, e) => r == Err::<(), DfaError>(e) && graph_edges(*final(graph))
                == graph_edges(*old(graph)) + l,
            EdgeScan::Panic => false,
        },
{
    let ghost nodes0 = graph_nodes(*graph);
    let ghost edges0 = graph_edges(*graph);
    let first: usize = match last_max_state {
        Some(v) => v + 1,
        None => 0,
    };
    let ghost weights = new_node_weights(first as nat, next_max_state as nat);
    assert(first as nat == first_new_state(last_max_state));
    if first <= next_max_state {
        let mut idx: usize = first;
        loop
            invariant_except_break
                first <= idx <= next_max_state,
                graph_nodes(*graph) == nodes0 + weights.take(idx - first),
            invariant
                weights == new_node_weights(first as nat, next_max_state as nat),
                graph_edges(*graph) == edges0,
            ensures
                graph_nodes(*graph) == nodes0 + weights,
            decreases next_max_state - idx,
        {
            let ghost before = graph_nodes(*graph);
            graph_add_node(graph, idx == next_max_state);
            assert(weights.take(idx - first + 1) =~= weights.take(idx - first).push(idx == next_max_state));
            assert(graph_nodes(*graph) =~= nodes0 + weights.take(idx - first + 1));
            if idx == next_max_state {
                assert(weights.take(idx - first + 1) =~= weights);
                assert(graph_nodes(*graph) == nodes0 + weights);
                break;
            }
            idx = idx + 1;
        }
    } else {
        assert(weights =~= Seq::<bool>::empty());
        assert(nodes0 + weights =~= nodes0);
    }
    let n = graph_node_count(graph);
    assert(n as nat == nodes_after(nodes0.len(), last_max_state, next_max_state));
    match plan_graph_edges(dfa_val, last_max_state, n) {
        None => {
            assert(false);
            Ok(())
        },
        Some((edges, stop)) => {
            let mut k: usize = 0;
            while k < edges.len()
                invariant
                    k <= edges@.len(),
                    graph_nodes(*graph).len() == n,
                    graph_nodes(*graph) == nodes0 + weights,
                    graph_edges(*graph) == edges0 + edges@.take(k as int),
                    forall|m: int| 0 <= m < edges@.len() ==> (#[trigger] edges@[m]).0 < n && edges@[m].1 < n,
                decreases edges.len() - k,
            {
                let (a, b, w) = edges[k];
                assert(edges@[k as int].0 < n);
                graph_add_edge(graph, a, b, w);
                assert(edges@.take(k + 1) =~= edges@.take(k as int).push((a, b, w)));
                assert(graph_edges(*graph) =~= edges0 + edges@.take(k + 1));
                k = k + 1;
            }
            assert(edges@.take(k as int) =~= edges@);
            match stop {
                None => Ok(()),
                Some(e) => Err(e),
            }
        },
    }
}

/// [`add_graph_nodes`] where every edge can be added; `None`, with the graph
/// unchanged, where one cannot (a key of more than one byte, an edge to
/// a state that has no node, a state index at the limit of `usize`) or where the
/// nodes would outnumber `usize`.
pub fn try_add_graph_nodes(
    dfa_val: &[DfaState],
    graph: &mut Graph<bool, char, Directed, usize>,
    last_max_state: Option<usize>,
    next_max_state: usize,
) -> (r: Option<Result<(), DfaError>>)
    ensures
        r is None <==> (last_max_state == Some(usize::MAX) || nodes_after(graph_nodes(*old(graph)).len(), last_max_state, next_max_state) > usize::MAX
            || graph_edge_scan(
            states_view(dfa_val@),
            last_max_state,
            nodes_after(graph_nodes(*old(graph)).len(), last_max_state, next_max_state),
        ) is Panic),
        r is None ==> graph_nodes(*final(graph)) == graph_nodes(*old(graph)) && graph_edges(*final(graph)) == graph_edges(*old(graph)),
        r matches Some(res) ==> {
            &&& graph_nodes(*final(graph)) == graph_nodes(*old(graph)) + new_node_weights(
                first_new_state(last_max_state),
                next_max_state as nat,
            )
            &&& match graph_edge_scan(
                states_view(dfa_val@),
                last_max_state,
                nodes_after(graph_nodes(*old(graph)).len(), last_max_state, next_max_state),
            ) {
                EdgeScan::Added(l) => res is Ok && graph_edges(*final(graph)) == graph_edges(*old(graph)) + l,
                EdgeScan::Stopped(l, e) => res == Err::<(), DfaError>(e) && graph_edges(*final(graph))
                    == graph_edges(*old(graph)) + l,
                EdgeScan::Panic => false,
            }
        },
{
    let first: usize = match last_max_state {
        Some(v) => {
            if v == usize::MAX {
                return None;
            }
            v + 1
        },
        None => 0,
    };
    let n0 = graph_node_count(graph);
    let count: usize = if first <= next_max_state {
        if next_max_state - first == usize::MAX {
            return None;
        }
        next_max_state - first + 1
    } else {
        0
    };
    if count > usize::MAX - n0 {
        return None;
    }
    let n = n0 + count;
    assert(n as nat == nodes_after(graph_nodes(*graph).len(), last_max_state, next_max_state));
    match plan_graph_edges(dfa_val, last_max_state, n) {
        None => None,
        Some(_) => Some(add_graph_nodes(dfa_val, graph, last_max_state, next_max_state)),
    }
}

/// The rewriting `to_js_regex` applies: escaped `/`, a heart sign, `[`, `]`, `.`, `$`
/// and `^` (a doubled backslash before them) lose their escape, in that order;
/// a heart sign becomes the JavaScript escape `\u000b`.
pub open spec fn js_regex(regex: Seq<char>) -> Seq<char> {
    let r1 = replace_all(regex, seq!['\\', '\\', '/'], seq!['/']);
    let r2 = replace_all(r1, seq!['\\', '\\', '\u{2665}'], seq!['\\', 'u', '0', '0', '0', 'b']);
    let r3 = replace_all(r2, seq!['\\', '\\', '['], seq!['[']);
    let r4 = replace_all(r3, seq!['\\', '\\', ']'], seq![']']);
    let r5 = replace_all(r4, seq!['\\', '\\', '.'], seq!['.']);
    let r6 = replace_all(r5, seq!['\\', '\\', '$'], seq!['$']);
    replace_all(r6, seq!['\\', '\\', '^'], seq!['^'])
}

/// Rewrites a regex into the form JavaScript expects (see [`js_regex`]).
pub fn to_js_regex(regex: &str) -> (r: String)
    ensures
        r@ == js_regex(regex@),
{
    proof {
        reveal_strlit(r"\\/");
        reveal_strlit(r"/");
        reveal_strlit("\\\\\u{2665}");
        reveal_strlit(r"\u000b");
        reveal_strlit(r"\\[");
        reveal_strlit(r"[");
        reveal_strlit(r"\\]");
        reveal_strlit(r"]");
        reveal_strlit(r"\\.");
        reveal_strlit(r".");
        reveal_strlit(r"\\$");
        reveal_strlit(r"$");
        reveal_strlit(r"\\^");
        reveal_strlit(r"^");
    }
    assert(r"\\/"@ =~= seq!['\\', '\\', '/']);
    assert(r"/"@ =~= seq!['/']);
    assert("\\\\\u{2665}"@ =~= seq!['\\', '\\', '\u{2665}']);
    assert(r"\u000b"@ =~= seq!['\\', 'u', '0', '0', '0', 'b']);
    assert(r"\\["@ =~= seq!['\\', '\\', '[']);
    assert(r"["@ =~= seq!['[']);
    assert(r"\\]"@ =~= seq!['\\', '\\', ']']);
    assert(r"]"@ =~= seq![']']);
    assert(r"\\."@ =~= seq!['\\', '\\', '.']);
    assert(r"."@ =~= seq!['.']);
    assert(r"\\$"@ =~= seq!['\\', '\\', '$']);
    assert(r"$"@ =~= seq!['$']);
    assert(r"\\^"@ =~= seq!['\\', '\\', '^']);
    assert(r"^"@ =~= seq!['^']);
    let mut replaced = replace_str(regex, r"\\/", r"/");
    replaced = replace_str(replaced.as_str(), "\\\\\u{2665}", r"\u000b");
    replaced = replace_str(replaced.as_str(), r"\\[", r"[");
    replaced = replace_str(replaced.as_str(), r"\\]", r"]");
    replaced = replace_str(replaced.as_str(), r"\\.", r".");
    replaced = replace_str(replaced.as_str(), r"\\$", r"$");
    replaced = replace_str(replaced.as_str(), r"\\^", r"^");
    replaced
}


/// A regex in which no backslash directly follows another is already in the
/// form JavaScript expects: every rewritten pattern starts with two backslashes.
pub proof fn lemma_js_regex_plain(regex: Seq<char>)
    requires
        !has_pair(regex, '\\', '\\'),
    ensures
        js_regex(regex) == regex,
{
    lemma_replace_absent_pair(regex, seq!['\\', '\\', '/'], seq!['/']);
    lemma_replace_absent_pair(regex, seq!['\\', '\\', '\u{2665}'], seq!['\\', 'u', '0', '0', '0', 'b']);
    lemma_replace_absent_pair(regex, seq!['\\', '\\', '['], seq!['[']);
    lemma_replace_absent_pair(regex, seq!['\\', '\\', ']'], seq![']']);
    lemma_replace_absent_pair(regex, seq!['\\', '\\', '.'], seq!['.']);
    lemma_replace_absent_pair(regex, seq!['\\', '\\', '$'], seq!['$']);
    lemma_replace_absent_pair(regex, seq!['\\', '\\', '^'], seq!['^']);
}

/// The target of the `j`-th edge of the `i`-th state, if there is such an edge
/// and its target is an unsigned integer.
pub open spec fn edge_target(ss: Seq<StateView>, i: int, j: int) -> Option<usize> {
    if 0 <= i < ss.len() {
        match ss[i].edges {
            Some(es) => if 0 <= j < es.len() {
                es[j].next
            } else {
                None
            },
            None => None,
        }
    } else {
        None
    }
}

/// Whether every state has an `edges` object and every edge target is an
/// unsigned integer.
pub open spec fn targets_readable(ss: Seq<StateView>) -> bool {
    forall|i: int| 0 <= i < ss.len() ==> #[trigger] state_readable(ss[i])
}

/// Whether a state has an `edges` object whose targets are all unsigned integers.
pub open spec fn state_readable(s: StateView) -> bool {
    match s.edges {
        Some(es) => forall|j: int| 0 <= j < es.len() ==> (#[trigger] es[j].next) is Some,
        None => false,
    }
}

proof fn lemma_edges_max(es: Seq<EdgeView>, acc: usize)
    ensures
        edges_max(es, acc) is Ok <==> forall|j: int| 0 <= j < es.len() ==> (#[trigger] es[j].next) is Some,
        edges_max(es, acc) matches Ok(m) ==> {
            &&& acc <= m
            &&& forall|j: int| 0 <= j < es.len() ==> (#[trigger] es[j].next)->0 <= m
            &&& (m == acc || exists|j: int| 0 <= j < es.len() && (#[trigger] es[j].next) == Some(m))
        },
    decreases es.len(),
{
    if es.len() > 0 {
        let rest = es.drop_first();
        match es[0].next {
            None => {},
            Some(t) => {
                let a = if t > acc { t } else { acc };
                lemma_edges_max(rest, a);
                assert forall|j: int| 0 < j < es.len() implies es[j] == #[trigger] rest[j - 1] by {}
                if edges_max(es, acc) is Ok {
                    assert forall|j: int| 0 <= j < es.len() implies (#[trigger] es[j].next) is Some by {
                        if j > 0 {
                            assert(rest[j - 1].next is Some);
                        }
                    }
                } else {
                    if forall|j: int| 0 <= j < es.len() ==> (#[trigger] es[j].next) is Some {
                        assert forall|j: int| 0 <= j < rest.len() implies (#[trigger] rest[j].next) is Some by {
                            assert(es[j + 1].next is Some);
                        }
                    }
                }
                if let Ok(m) = edges_max(es, acc) {
                    assert forall|j: int| 0 <= j < es.len() implies (#[trigger] es[j].next)->0 <= m by {
                        if j > 0 {
                            assert(rest[j - 1].next->0 <= m);
                        }
                    }
                    if m != acc {
                        if m == a {
                            assert(es[0].next == Some(m));
                        } else {
                            let j = choose|j: int| 0 <= j < rest.len() && (#[trigger] rest[j].next) == Some(m);
                            assert(es[j + 1].next == Some(m));
                        }
                    }
                }
            },
        }
    }
}

proof fn lemma_states_max(ss: Seq<StateView>, acc: usize)
    ensures
        states_max(ss, acc) is Ok <==> targets_readable(ss),
        states_max(ss, acc) matches Ok(m) ==> {
            &&& acc <= m
            &&& forall|i: int, j: int| (#[trigger] edge_target(ss, i, j)) is Some ==> edge_target(ss, i, j)->0 <= m
            &&& (m == acc || exists|i: int, j: int| (#[trigger] edge_target(ss, i, j)) == Some(m))
        },
    decreases ss.len(),
{
    if ss.len() > 0 {
        let rest = ss.drop_first();
        assert forall|i: int, j: int| 0 < i < ss.len() implies #[trigger] edge_target(ss, i, j) == edge_target(rest, i - 1, j) by {
            assert(ss[i] == rest[i - 1]);
        }
        match ss[0].edges {
            None => {
                assert(!targets_readable(ss)) by {
                    assert(!state_readable(ss[0]));
                }
            },
            Some(es) => {
                lemma_edges_max(es, acc);
                match edges_max(es, acc) {
                    Err(_) => {
                        assert(!targets_readable(ss)) by {
                            if targets_readable(ss) {
                                assert(state_readable(ss[0]));
                            }
                        }
                    },
                    Ok(a) => {
                        lemma_states_max(rest, a);
                        if targets_readable(ss) {
                            assert forall|i: int| 0 <= i < rest.len() implies #[trigger] state_readable(rest[i]) by {
                                assert(rest[i] == ss[i + 1]);
                            }
                        }
                        if targets_readable(rest) {
                            assert forall|i: int| 0 <= i < ss.len() implies #[trigger] state_readable(ss[i]) by {
                                if i > 0 {
                                    assert(rest[i - 1] == ss[i]);
                                }
                            }
                        }
                        if let Ok(m) = states_max(ss, acc) {
                            assert forall|i: int, j: int| (#[trigger] edge_target(ss, i, j)) is Some implies edge_target(ss, i, j)->0 <= m by {
                                if i == 0 {
                                    assert(es[j].next->0 <= a);
                                } else {
                                    assert(edge_target(rest, i - 1, j) == edge_target(ss, i, j));
                                }
                            }
                            if m != acc {
                                if m == a {
                                    let j = choose|j: int| 0 <= j < es.len() && (#[trigger] es[j].next) == Some(m);
                                    assert(edge_target(ss, 0, j) == Some(m));
                                } else {
                                    let (i, j) = choose|i: int, j: int| (#[trigger] edge_target(rest, i, j)) == Some(m);
                                    assert(edge_target(ss, i + 1, j) == Some(m));
                                }
                            }
                        }
                    },
                }
            },
        }
    }
}

/// `get_max_state` succeeds exactly when every state has an `edges` object
/// whose targets are all unsigned integers, and then gives the largest target
/// (0 when there is no edge).
pub proof fn lemma_max_state_is_largest_target(ss: Seq<StateView>)
    ensures
        states_max(ss, 0) is Ok <==> targets_readable(ss),
        states_max(ss, 0) matches Ok(m) ==> {
            &&& forall|i: int, j: int| (#[trigger] edge_target(ss, i, j)) is Some ==> edge_target(ss, i, j)->0 <= m
            &&& (m == 0 || exists|i: int, j: int| (#[trigger] edge_target(ss, i, j)) == Some(m))
        },
{
    lemma_states_max(ss, 0);
}


/// The edges that a scan adds before it ends.
pub open spec fn scan_edges(s: EdgeScan) -> Seq<(usize, usize, char)> {
    match s {
        EdgeScan::Added(l) => l,
        EdgeScan::Stopped(l, _) => l,
        EdgeScan::Panic => seq![],
    }
}

/// Whether the key of a DFA transition lists a string that starts with `c`.
pub open spec fn key_lists(key: Seq<char>, c: char) -> bool {
    json_string_list(key) is Some && exists|k: int|
        0 <= k < json_string_list(key)->0.len() && (#[trigger] json_string_list(key)->0[k]).len() > 0
            && json_string_list(key)->0[k][0] == c
}

/// Whether one of the transitions `es` goes to `to` on a key that lists `c`.
pub open spec fn transition_in(es: Seq<EdgeView>, to: usize, c: char) -> bool {
    exists|t: int| 0 <= t < es.len() && (#[trigger] es[t]).next == Some(to) && key_lists(es[t].key, c)
}

/// Whether state `from` of the DFA has a transition to `to` on a key that lists `c`.
pub open spec fn has_transition(ss: Seq<StateView>, from: usize, to: usize, c: char) -> bool {
    &&& from < ss.len()
    &&& ss[from as int].edges is Some
    &&& transition_in(ss[from as int].edges->0, to, c)
}

proof fn lemma_eprepend_edges(pre: Seq<(usize, usize, char)>, rest: EdgeScan, e: (usize, usize, char))
    requires
        scan_edges(eprepend(pre, rest)).contains(e),
    ensures
        pre.contains(e) || scan_edges(rest).contains(e),
{
    match rest {
        EdgeScan::Added(l) => {
            let m = choose|m: int| 0 <= m < (pre + l).len() && (pre + l)[m] == e;
            if m >= pre.len() {
                assert(l[m - pre.len()] == e);
            }
        },
        EdgeScan::Stopped(l, _) => {
            let m = choose|m: int| 0 <= m < (pre + l).len() && (pre + l)[m] == e;
            if m >= pre.len() {
                assert(l[m - pre.len()] == e);
            }
        },
        EdgeScan::Panic => {},
    }
}

proof fn lemma_ethen_edges(first: EdgeScan, rest: EdgeScan, e: (usize, usize, char))
    requires
        scan_edges(ethen(first, rest)).contains(e),
    ensures
        scan_edges(first).contains(e) || scan_edges(rest).contains(e),
{
    match first {
        EdgeScan::Added(l) => lemma_eprepend_edges(l, rest, e),
        _ => {},
    }
}

proof fn lemma_key_edges_reversed(from: usize, to: usize, keys: Seq<Seq<char>>, n: nat, e: (usize, usize, char))
    requires
        scan_edges(key_edges(from, to, keys, n)).contains(e),
    ensures
        e.0 == to && e.1 == from && exists|k: int| 0 <= k < keys.len() && (#[trigger] keys[k]).len() > 0 && keys[k][0] == e.2,
    decreases keys.len(),
{
    if keys.len() > 0 && !(encode_utf8(keys[0]).len() != 1 || to >= n || from >= n) {
        let one = seq![(to, from, keys[0][0])];
        lemma_eprepend_edges(one, key_edges(from, to, keys.drop_first(), n), e);
        if one.contains(e) {
            lemma_encode_utf8_len(keys[0]);
            assert(keys[0].len() > 0);
        } else {
            lemma_key_edges_reversed(from, to, keys.drop_first(), n, e);
            let k = choose|k: int| 0 <= k < keys.drop_first().len() && (#[trigger] keys.drop_first()[k]).len() > 0
                && keys.drop_first()[k][0] == e.2;
            assert(keys[k + 1] == keys.drop_first()[k]);
        }
    }
}

proof fn lemma_edge_adds_reversed(
    from: usize,
    es: Seq<EdgeView>,
    last_max_state: Option<usize>,
    n: nat,
    e: (usize, usize, char),
)
    requires
        scan_edges(edge_adds(from, es, last_max_state, n)).contains(e),
    ensures
        e.1 == from,
        transition_in(es, e.0, e.2),
        !already_added(last_max_state, from, e.0),
    decreases es.len(),
{
    if es.len() > 0 {
        let rest = es.drop_first();
        match es[0].next {
            None => {},
            Some(to) => {
                if already_added(last_max_state, from, to) {
                    lemma_edge_adds_reversed(from, rest, last_max_state, n, e);
                    let t = choose|t: int| 0 <= t < rest.len() && (#[trigger] rest[t]).next == Some(e.0) && key_lists(rest[t].key, e.2);
                    assert(es[t + 1] == rest[t]);
                } else {
                    match json_string_list(es[0].key) {
                        None => {},
                        Some(keys) => {
                            lemma_ethen_edges(key_edges(from, to, keys, n), edge_adds(from, rest, last_max_state, n), e);
                            if scan_edges(key_edges(from, to, keys, n)).contains(e) {
                                lemma_key_edges_reversed(from, to, keys, n, e);
                                assert(key_lists(es[0].key, e.2));
                                assert(es[0].next == Some(e.0));
                            } else {
                                lemma_edge_adds_reversed(from, rest, last_max_state, n, e);
                                let t = choose|t: int|
                                    0 <= t < rest.len() && (#[trigger] rest[t]).next == Some(e.0) && key_lists(rest[t].key, e.2);
                                assert(es[t + 1] == rest[t]);
                            }
                        },
                    }
                }
            },
        }
    }
}

proof fn lemma_state_adds_reversed(ss: Seq<StateView>, i: int, last_max_state: Option<usize>, n: nat, e: (usize, usize, char))
    requires
        scan_edges(state_adds(ss, i, last_max_state, n)).contains(e),
        ss.len() <= usize::MAX,
    ensures
        has_transition(ss, e.1, e.0, e.2),
        !already_added(last_max_state, e.1, e.0),
    decreases ss.len() - i,
{
    if 0 <= i < ss.len() {
        match ss[i].edges {
            None => {},
            Some(es) => {
                lemma_ethen_edges(edge_adds(i as usize, es, last_max_state, n), state_adds(ss, i + 1, last_max_state, n), e);
                if scan_edges(edge_adds(i as usize, es, last_max_state, n)).contains(e) {
                    lemma_edge_adds_reversed(i as usize, es, last_max_state, n, e);
                    assert((i as usize) as int == i);
                } else {
                    lemma_state_adds_reversed(ss, i + 1, last_max_state, n, e);
                }
            },
        }
    }
}

/// Every edge that `add_graph_nodes` adds is a DFA transition reversed: an
/// edge from `a` to `b` labelled `c` comes from a transition of state `b` to
/// state `a` whose key lists `c`, between states not both up to
/// `last_max_state`.
pub proof fn lemma_graph_edges_are_reversed_transitions(ss: Seq<StateView>, last_max_state: Option<usize>, n: nat)
    requires
        ss.len() <= usize::MAX,
    ensures
        forall|e: (usize, usize, char)|
            #[trigger] scan_edges(graph_edge_scan(ss, last_max_state, n)).contains(e) ==> has_transition(ss, e.1, e.0, e.2)
                && !already_added(last_max_state, e.1, e.0),
{
    assert forall|e: (usize, usize, char)| #[trigger] scan_edges(graph_edge_scan(ss, last_max_state, n)).contains(e) implies has_transition(
        ss,
        e.1,
        e.0,
        e.2,
    ) && !already_added(last_max_state, e.1, e.0) by {
        lemma_state_adds_reversed(ss, 0, last_max_state, n, e);
    }
}


/// The header of a DFA's regex definition text: the start state 0, the first
/// accepting state (see [`first_accept_from`]) and the largest edge target
/// (see [`states_max`]), each on a line of its own; `None` when there is no
/// accepting state or the targets cannot be read.
pub open spec fn def_text_header(ss: Seq<StateView>) -> Option<Seq<char>> {
    match (first_accept_from(ss, 0), states_max(ss, 0)) {
        (Some(a), Ok(m)) => Some(seq!['0', '\n'] + decimal(a as nat) + seq!['\n'] + decimal(m as nat) + seq!['\n']),
        _ => None,
    }
}

/// A regex definition text that is written begins with its header: `0`, the
/// first accepting state, then the largest state, in that order.
pub proof fn lemma_regex_def_text_header(ss: Seq<StateView>)
    ensures
        regex_def_text(ss) is Out ==> def_text_header(ss) is Some && ({
            let text = regex_def_text(ss)->Out_0;
            let header = def_text_header(ss)->0;
            text.len() >= header.len() && text.take(header.len() as int) == header
        }),
{
    if regex_def_text(ss) is Out {
        let header = def_text_header(ss)->0;
        let rest = state_lines(ss, 0)->Out_0;
        assert(regex_def_text(ss)->Out_0 == header + rest);
        assert((header + rest).take(header.len() as int) =~= header);
    }
}


/// The reversed transition that key string `k` of the DFA edge `e` of state
/// `from` stands for: from the edge's target back to `from`, labelled with the
/// key's first character; `None` when the target or the key list cannot be read
/// or there is no such key.
pub open spec fn key_entry(e: EdgeView, from: usize, k: int) -> Option<(usize, usize, char)> {
    match (e.next, json_string_list(e.key)) {
        (Some(t), Some(keys)) => if 0 <= k < keys.len() {
            Some((t, from, keys[k][0]))
        } else {
            None
        },
        _ => None,
    }
}

/// The reversed transition for key `k` of edge `j` of state `i` (see [`key_entry`]).
pub open spec fn keyed_transition(ss: Seq<StateView>, i: int, j: int, k: int) -> Option<(usize, usize, char)> {
    if 0 <= i < ss.len() && ss[i].edges is Some && 0 <= j < ss[i].edges->0.len() {
        key_entry(ss[i].edges->0[j], i as usize, k)
    } else {
        None
    }
}

proof fn lemma_eprepend_added(pre: Seq<(usize, usize, char)>, x: EdgeScan)
    requires
        eprepend(pre, x) is Added,
    ensures
        x is Added,
        scan_edges(eprepend(pre, x)) == pre + scan_edges(x),
{
}

proof fn lemma_ethen_added(a: EdgeScan, b: EdgeScan)
    requires
        ethen(a, b) is Added,
    ensures
        a is Added,
        b is Added,
        scan_edges(ethen(a, b)) == scan_edges(a) + scan_edges(b),
{
    match a {
        EdgeScan::Added(l) => lemma_eprepend_added(l, b),
        _ => {},
    }
}

proof fn lemma_key_edges_complete(from: usize, to: usize, keys: Seq<Seq<char>>, n: nat)
    requires
        key_edges(from, to, keys, n) is Added,
    ensures
        forall|k: int| 0 <= k < keys.len() ==> scan_edges(key_edges(from, to, keys, n)).contains((to, from, #[trigger] keys[k][0])),
    decreases keys.len(),
{
    if keys.len() > 0 {
        let one = seq![(to, from, keys[0][0])];
        let rest = keys.drop_first();
        lemma_eprepend_added(one, key_edges(from, to, rest, n));
        lemma_key_edges_complete(from, to, rest, n);
        let l = scan_edges(key_edges(from, to, keys, n));
        assert(l == one + scan_edges(key_edges(from, to, rest, n)));
        assert forall|k: int| 0 <= k < keys.len() implies l.contains((to, from, #[trigger] keys[k][0])) by {
            if k == 0 {
                assert(l[0] == (to, from, keys[0][0]));
            } else {
                assert(keys[k] == rest[k - 1]);
                let r = scan_edges(key_edges(from, to, rest, n));
                let m = choose|m: int| 0 <= m < r.len() && r[m] == (to, from, rest[k - 1][0]);
                assert(l[m + 1] == r[m]);
            }
        }
    }
}

proof fn lemma_edge_adds_complete(from: usize, es: Seq<EdgeView>, last_max_state: Option<usize>, n: nat)
    requires
        edge_adds(from, es, last_max_state, n) is Added,
    ensures
        forall|j: int, k: int|
            0 <= j < es.len() && (#[trigger] key_entry(es[j], from, k)) is Some && !already_added(
                last_max_state,
                from,
                (key_entry(es[j], from, k)->0).0,
            ) ==> scan_edges(edge_adds(from, es, last_max_state, n)).contains(key_entry(es[j], from, k)->0),
    decreases es.len(),
{
    if es.len() > 0 {
        let rest = es.drop_first();
        let l = scan_edges(edge_adds(from, es, last_max_state, n));
        let to = es[0].next->0;
        if already_added(last_max_state, from, to) {
            lemma_edge_adds_complete(from, rest, last_max_state, n);
            assert forall|j: int, k: int|
                0 <= j < es.len() && (#[trigger] key_entry(es[j], from, k)) is Some && !already_added(
                    last_max_state,
                    from,
                    (key_entry(es[j], from, k)->0).0,
                ) implies l.contains(key_entry(es[j], from, k)->0) by {
                assert(j > 0);
                assert(es[j] == rest[j - 1]);
            }
        } else {
            let keys = json_string_list(es[0].key)->0;
            let ke = key_edges(from, to, keys, n);
            let re = edge_adds(from, rest, last_max_state, n);
            lemma_ethen_added(ke, re);
            lemma_key_edges_complete(from, to, keys, n);
            lemma_edge_adds_complete(from, rest, last_max_state, n);
            assert(l == scan_edges(ke) + scan_edges(re));
            assert forall|j: int, k: int|
                0 <= j < es.len() && (#[trigger] key_entry(es[j], from, k)) is Some && !already_added(
                    last_max_state,
                    from,
                    (key_entry(es[j], from, k)->0).0,
                ) implies l.contains(key_entry(es[j], from, k)->0) by {
                if j == 0 {
                    let c = keys[k][0];
                    let m = choose|m: int| 0 <= m < scan_edges(ke).len() && scan_edges(ke)[m] == (to, from, c);
                    assert(l[m] == (to, from, c));
                } else {
                    assert(es[j] == rest[j - 1]);
                    let e = key_entry(rest[j - 1], from, k)->0;
                    let r = scan_edges(re);
                    let m = choose|m: int| 0 <= m < r.len() && r[m] == e;
                    assert(l[scan_edges(ke).len() + m] == e);
                }
            }
        }
    }
}

proof fn lemma_state_adds_complete(ss: Seq<StateView>, i0: int, last_max_state: Option<usize>, n: nat)
    requires
        state_adds(ss, i0, last_max_state, n) is Added,
        0 <= i0,
        ss.len() <= usize::MAX,
    ensures
        forall|i: int, j: int, k: int|
            i0 <= i && (#[trigger] keyed_transition(ss, i, j, k)) is Some && !already_added(
                last_max_state,
                i as usize,
                (keyed_transition(ss, i, j, k)->0).0,
            ) ==> scan_edges(state_adds(ss, i0, last_max_state, n)).contains(keyed_transition(ss, i, j, k)->0),
    decreases ss.len() - i0,
{
    if i0 < ss.len() {
        let es = ss[i0].edges->0;
        let ea = edge_adds(i0 as usize, es, last_max_state, n);
        let sa = state_adds(ss, i0 + 1, last_max_state, n);
        lemma_ethen_added(ea, sa);
        lemma_edge_adds_complete(i0 as usize, es, last_max_state, n);
        lemma_state_adds_complete(ss, i0 + 1, last_max_state, n);
        let l = scan_edges(state_adds(ss, i0, last_max_state, n));
        assert(l == scan_edges(ea) + scan_edges(sa));
        assert forall|i: int, j: int, k: int|
            i0 <= i && (#[trigger] keyed_transition(ss, i, j, k)) is Some && !already_added(
                last_max_state,
                i as usize,
                (keyed_transition(ss, i, j, k)->0).0,
            ) implies l.contains(keyed_transition(ss, i, j, k)->0) by {
            let e = keyed_transition(ss, i, j, k)->0;
            if i == i0 {
                assert(key_entry(es[j], i0 as usize, k) == keyed_transition(ss, i, j, k));
                let m = choose|m: int| 0 <= m < scan_edges(ea).len() && scan_edges(ea)[m] == e;
                assert(l[m] == e);
            } else {
                let r = scan_edges(sa);
                let m = choose|m: int| 0 <= m < r.len() && r[m] == e;
                assert(l[scan_edges(ea).len() + m] == e);
            }
        }
    }
}

/// When the DFA's edges are all added, every transition of every state is in
/// the graph reversed, once per character of its key: from the target back to
/// the state, labelled with the character. With no earlier states
/// (`last_max_state` is `None`) no transition is left out; with earlier
/// states up to `m`, only those between two states up to `m` are.
pub proof fn lemma_graph_has_every_transition(ss: Seq<StateView>, last_max_state: Option<usize>, n: nat)
    requires
        ss.len() <= usize::MAX,
    ensures
        graph_edge_scan(ss, last_max_state, n) is Added ==> forall|i: int, j: int, k: int|
            (#[trigger] keyed_transition(ss, i, j, k)) is Some && (match last_max_state {
                Some(m) => !(i <= m && (keyed_transition(ss, i, j, k)->0).0 <= m),
                None => true,
            }) ==> scan_edges(graph_edge_scan(ss, last_max_state, n)).contains(keyed_transition(ss, i, j, k)->0),
{
    if graph_edge_scan(ss, last_max_state, n) is Added {
        lemma_state_adds_complete(ss, 0, last_max_state, n);
        assert forall|i: int, j: int, k: int|
            (#[trigger] keyed_transition(ss, i, j, k)) is Some && (match last_max_state {
                Some(m) => !(i <= m && (keyed_transition(ss, i, j, k)->0).0 <= m),
                None => true,
            }) implies scan_edges(graph_edge_scan(ss, last_max_state, n)).contains(keyed_transition(ss, i, j, k)->0) by {
            assert(0 <= i < ss.len());
            assert((i as usize) as int == i);
            assert(!already_added(last_max_state, i as usize, (keyed_transition(ss, i, j, k)->0).0));
        }
    }
}

} // verus!
