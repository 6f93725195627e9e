use crate::fancy::{compile_regex, find_match, regex_compiles, regex_find, PartRegex};
use crate::json::strings_view;
use crate::text::{chars_of, decimal, lemma_encode_utf8_len, push_decimal, push_str, string_from_chars};
use crate::vrm::entry_config::{parts_view, BodyPartView, EntryConfig};
use crate::vrm::substr_defs::SubstrDefs;
use vstd::prelude::*;
use vstd::utf8::encode_utf8;

verus! {

/// Why the regexes of a rule's parts cannot be built.
#[derive(Debug, Clone, Copy, PartialEq, Eq)]
pub enum RegexDefError {
    /// The regex up to and including a part does not compile.
    InvalidRegex,
}

/// The message of each regex error.
pub open spec fn regex_def_error_text(e: RegexDefError) -> Seq<char> {
    match e {
        RegexDefError::InvalidRegex => "regex parse error"@,
    }
}

impl RegexDefError {
    /// The message that describes the error (see [`regex_def_error_text`]).
    pub fn message(&self) -> (s: String)
        ensures
            s@ == regex_def_error_text(*self),
    {
        match self {
            RegexDefError::InvalidRegex => String::from_str("regex parse error"),
        }
    }
}

/// The regexes of `parts`, one after the other.
pub open spec fn concat_regexes(parts: Seq<BodyPartView>) -> Seq<char>
    decreases parts.len(),
{
    if parts.len() == 0 {
        seq![]
    } else {
        concat_regexes(parts.drop_last()) + parts.last().regex_def
    }
}

/// The regex of a whole email body for a rule: any text ending in the text
/// context prefix, the rule's parts, then a line break and any text.
pub open spec fn body_regex(catch_all: Seq<char>, text_context_prefix: Seq<char>, parts: Seq<BodyPartView>) -> Seq<char> {
    "("@ + catch_all + "+)?"@ + text_context_prefix + concat_regexes(parts) + "\r\n("@ + catch_all + "+)?"@
}

/// The views of the compiled regexes: their patterns.
pub open spec fn patterns_view(rs: Seq<PartRegex>) -> Seq<Seq<char>> {
    rs.map_values(|r: PartRegex| r@)
}

/// The pattern for the next part: the previous pattern (if any) followed by
/// the part's formatted regex.
pub open spec fn next_pattern(patterns: Seq<Seq<char>>, formatted: Seq<char>) -> Seq<char> {
    if patterns.len() == 0 {
        formatted
    } else {
        patterns.last() + formatted
    }
}

/// The first byte of the text's UTF-8 encoding, read as a character.
pub open spec fn first_byte_char(s: Seq<char>) -> char {
    (encode_utf8(s)[0]) as char
}

/// The text spelled by a path's edge labels: the first byte of each label.
pub open spec fn path_text(strs: Seq<Seq<char>>) -> Seq<char> {
    strs.map_values(|s: Seq<char>| first_byte_char(s))
}

/// Where the first match of `pattern` in `text` ends (one further for an empty
/// match), if the search succeeds and finds one.
pub open spec fn match_end(pattern: Seq<char>, text: Seq<char>) -> Option<usize> {
    match regex_find(pattern, text) {
        Some(Some((s, e))) => Some(if s == e { (e + 1) as usize } else { e }),
        _ => None,
    }
}

/// The end of the first match of each pattern (see [`match_end`]).
pub open spec fn match_ends(patterns: Seq<Seq<char>>, text: Seq<char>) -> Seq<usize> {
    patterns.map_values(|p: Seq<char>| match_end(p, text)->0)
}

/// Where the substring of the public part at `index` starts on the path.
pub open spec fn span_start(ends: Seq<usize>, index: usize) -> int {
    if index == 0 {
        0
    } else {
        ends[index - 1] as int
    }
}

/// The `t`-th consecutive state pair of `states[start..=end]`; the last pair is
/// marked when it is not also the first.
pub open spec fn span_pair(states: Seq<usize>, start: int, end: int, t: int) -> (usize, usize, bool) {
    (states[start + t], states[start + t + 1], t == end - start - 1 && t > 0)
}

/// The consecutive state pairs of `states[start..=end]` (see [`span_pair`]).
pub open spec fn span_defs(states: Seq<usize>, start: int, end: int) -> Set<(usize, usize, bool)> {
    span_defs_upto(states, start, end, end - start)
}

/// The pairs of [`span_defs`] that come from its first `u` positions.
pub open spec fn span_defs_upto(states: Seq<usize>, start: int, end: int, u: int) -> Set<(usize, usize, bool)> {
    Set::new(
        |d: (usize, usize, bool)| exists|t: int| 0 <= t < u && d == #[trigger] span_pair(states, start, end, t),
    )
}

pub open spec fn min_len(a: nat, b: nat) -> nat {
    if a < b { a } else { b }
}

/// The inputs on which a path's substring transitions can be recorded:
/// one more state than labels, no empty label, every pattern matches the
/// path's text, and each public part names a pattern and a valid span.
pub open spec fn substr_defs_ok(
    states: Seq<usize>,
    strs: Seq<Seq<char>>,
    patterns: Seq<Seq<char>>,
    publics: Seq<usize>,
    ndefs: nat,
) -> bool {
    let text = path_text(strs);
    let ends = match_ends(patterns, text);
    &&& states.len() == strs.len() + 1
    &&& forall|j: int| 0 <= j < strs.len() ==> (#[trigger] strs[j]).len() > 0
    &&& forall|k: int| 0 <= k < patterns.len() ==> (#[trigger] match_end(patterns[k], text)) is Some
    &&& forall|k: int|
        0 <= k < min_len(ndefs, publics.len()) ==> {
            &&& (#[trigger] publics[k]) < patterns.len()
            &&& span_start(ends, publics[k]) <= ends[publics[k] as int]
            &&& ends[publics[k] as int] < states.len()
        }
}

pub open spec fn defs_view(defs: Seq<SubstrDefs>) -> Seq<Set<(usize, usize, bool)>> {
    defs.map_values(|d: SubstrDefs| d@)
}

/// The sets `after` are the sets `before` with, for each public part (by its
/// index in `publics`, as far as there are sets), the state pairs of its span on
/// the path added.
pub open spec fn substr_defs_recorded(
    before: Seq<Set<(usize, usize, bool)>>,
    after: Seq<Set<(usize, usize, bool)>>,
    states: Seq<usize>,
    strs: Seq<Seq<char>>,
    patterns: Seq<Seq<char>>,
    publics: Seq<usize>,
) -> bool {
    let ends = match_ends(patterns, path_text(strs));
    &&& after.len() == before.len()
    &&& forall|k: int|
        0 <= k < before.len() ==> #[trigger] after[k] == if k < publics.len() {
            before[k].union(span_defs(states, span_start(ends, publics[k]), ends[publics[k] as int] as int))
        } else {
            before[k]
        }
}

impl EntryConfig {
    /// The regex of a whole email body for rule `id` (see [`body_regex`]).
    pub fn all_body_regex(&self, id: usize, catch_all: &str, text_context_prefix: &str) -> (r: String)
        requires
            self.rules@.contains_key(id),
        ensures
            r@ == body_regex(catch_all@, text_context_prefix@, self.rules_view()[id]),
    {
        let parts = self.rule_parts(id);
        let ghost pv = parts_view(parts@);
        let mut all_regex = String::from_str("(");
        all_regex.append(catch_all);
        all_regex.append("+)?");
        all_regex.append(text_context_prefix);
        let ghost head = all_regex@;
        let mut k: usize = 0;
        while k < parts.len()
            invariant
                pv == parts_view(parts@),
                k <= parts@.len(),
                all_regex@ == head + concat_regexes(pv.take(k as int)),
            decreases parts.len() - k,
        {
            assert(pv.take(k + 1).drop_last() =~= pv.take(k as int));
            assert(pv[k as int] == parts@[k as int]@);
            all_regex.append(parts[k].regex_def.as_str());
            assert(all_regex@ =~= head + concat_regexes(pv.take(k + 1)));
            k = k + 1;
        }
        assert(pv.take(k as int) =~= pv);
        all_regex.append("\r\n(");
        all_regex.append(catch_all);
        all_regex.append("+)?");
        assert(all_regex@ =~= body_regex(catch_all@, text_context_prefix@, pv));
        all_regex
    }
}

/// Compiles the regex for the next part: the previous part's pattern followed
/// by `formatted`, the part's own regex in printable form. It is appended when
/// it compiles.
pub fn push_part_regex(part_regexes: &mut Vec<PartRegex>, formatted: &str) -> (r: Result<(), RegexDefError>)
    ensures
        match r {
            Ok(()) => patterns_view(final(part_regexes)@) == patterns_view(old(part_regexes)@).push(
                next_pattern(patterns_view(old(part_regexes)@), formatted@),
            ),
            Err(e) => final(part_regexes)@ == old(part_regexes)@,
        },
        r is Ok <==> regex_compiles(next_pattern(patterns_view(old(part_regexes)@), formatted@)),
{
    let mut pattern = String::new();
    if part_regexes.len() > 0 {
        pattern.append(part_regexes[part_regexes.len() - 1].pattern());
    }
    pattern.append(formatted);
    assert(pattern@ =~= next_pattern(patterns_view(part_regexes@), formatted@));
    match compile_regex(pattern.as_str()) {
        None => Err(RegexDefError::InvalidRegex),
        Some(re) => {
            let ghost before = part_regexes@;
            part_regexes.push(re);
            assert(patterns_view(part_regexes@) =~= patterns_view(before).push(re@));
            Ok(())
        },
    }
}

/// The text spelled by a path's edge labels (see [`path_text`]).
pub fn path_text_of(path_strs: &[String]) -> (t: String)
    requires
        forall|j: int| 0 <= j < path_strs@.len() ==> (#[trigger] path_strs@[j])@.len() > 0,
    ensures
        t@ == path_text(strings_view(path_strs@)),
{
    let mut out: Vec<char> = Vec::new();
    let mut j: usize = 0;
    while j < path_strs.len()
        invariant
            j <= path_strs@.len(),
            forall|i: int| 0 <= i < path_strs@.len() ==> (#[trigger] path_strs@[i])@.len() > 0,
            out@ =~= path_text(strings_view(path_strs@)).take(j as int),
        decreases path_strs.len() - j,
    {
        let s = path_strs[j].as_str();
        let bytes = s.as_bytes();
        proof {
            lemma_encode_utf8_len(s@);
        }
        let b = bytes[0];
        out.push(b as char);
        assert(out@ =~= path_text(strings_view(path_strs@)).take(j + 1));
        j = j + 1;
    }
    assert(path_text(strings_view(path_strs@)).take(j as int) =~= path_text(strings_view(path_strs@)));
    string_from_chars(out.as_slice())
}

/// Where the first match of each regex in `text` ends (see [`match_end`]), or
/// `None` when a search fails or finds nothing.
pub fn match_ends_of(part_regexes: &[PartRegex], text: &str) -> (r: Option<Vec<usize>>)
    ensures
        match r {
            Some(v) => v@ == match_ends(patterns_view(part_regexes@), text@) && forall|k: int|
                0 <= k < part_regexes@.len() ==> (#[trigger] match_end(patterns_view(part_regexes@)[k], text@)) is Some,
            None => exists|k: int|
                0 <= k < part_regexes@.len() && (#[trigger] match_end(patterns_view(part_regexes@)[k], text@)) is None,
        },
{
    let ghost pats = patterns_view(part_regexes@);
    let mut ends: Vec<usize> = Vec::new();
    let mut k: usize = 0;
    while k < part_regexes.len()
        invariant
            pats == patterns_view(part_regexes@),
            k <= part_regexes@.len(),
            ends@ =~= match_ends(pats, text@).take(k as int),
            forall|i: int| 0 <= i < k ==> (#[trigger] match_end(pats[i], text@)) is Some,
        decreases part_regexes.len() - k,
    {
        assert(pats[k as int] == part_regexes@[k as int]@);
        match find_match(&part_regexes[k], text) {
            Some(Some((start, end))) => {
                let e = if start == end { end + 1 } else { end };
                ends.push(e);
                assert(ends@ =~= match_ends(pats, text@).take(k + 1));
            },
            _ => {
                assert(match_end(pats[k as int], text@) is None);
                return None;
            },
        }
        k = k + 1;
    }
    assert(match_ends(pats, text@).take(k as int) =~= match_ends(pats, text@));
    Some(ends)
}

impl EntryConfig {
    /// Records the substring transitions of one accepting path. `path_states` are
    /// the path's states and `path_strs` its edge labels; each regex of
    /// `part_regexes` spans the parts up to one part, and its first match in the
    /// path's text ends that part. For each public part (by its index in
    /// `public_config_indexes`, as far as there are sets), the state pairs of its
    /// span are added to its set.
    pub fn add_substr_defs_from_path(
        &self,
        substr_defs_array: &mut Vec<SubstrDefs>,
        path_states: &[usize],
        path_strs: &[String],
        part_regexes: &[PartRegex],
        public_config_indexes: &[usize],
    )
        requires
            substr_defs_ok(
                path_states@,
                strings_view(path_strs@),
                patterns_view(part_regexes@),
                public_config_indexes@,
                old(substr_defs_array)@.len(),
            ),
        ensures
            substr_defs_recorded(
                defs_view(old(substr_defs_array)@),
                defs_view(final(substr_defs_array)@),
                path_states@,
                strings_view(path_strs@),
                patterns_view(part_regexes@),
                public_config_indexes@,
            ),
    {
        let ghost strs = strings_view(path_strs@);
        assert forall|j: int| 0 <= j < path_strs@.len() implies (#[trigger] path_strs@[j])@.len() > 0 by {
            assert(strs[j] == path_strs@[j]@);
        }
        let text = path_text_of(path_strs);
        let ends = match match_ends_of(part_regexes, text.as_str()) {
            Some(v) => v,
            None => {
                assert(false);
                Vec::new()
            },
        };
        let ghost pats = patterns_view(part_regexes@);
        let ghost old_defs = substr_defs_array@;
        let n = if public_config_indexes.len() < substr_defs_array.len() {
            public_config_indexes.len()
        } else {
            substr_defs_array.len()
        };
        let mut k: usize = 0;
        while k < n
            invariant
                k <= n,
                n == min_len(old_defs.len(), public_config_indexes@.len()),
                substr_defs_array@.len() == old_defs.len(),
                ends@ == match_ends(pats, text@),
                text@ == path_text(strs),
                substr_defs_ok(path_states@, strs, pats, public_config_indexes@, old_defs.len()),
                forall|m: int|
                    0 <= m < old_defs.len() ==> (#[trigger] substr_defs_array@[m])@ == if m < k {
                        old_defs[m]@.union(
                            span_defs(
                                path_states@,
                                span_start(ends@, public_config_indexes@[m]),
                                ends@[public_config_indexes@[m] as int] as int,
                            ),
                        )
                    } else {
                        old_defs[m]@
                    },
            decreases n - k,
        {
            let index = public_config_indexes[k];
            assert(index < pats.len());
            let start = if index == 0 {
                0
            } else {
                ends[index - 1]
            };
            let end = ends[index];
            let ghost base = old_defs[k as int]@;
            let ghost entry = substr_defs_array@;
            let mut t: usize = 0;
            assert(span_defs_upto(path_states@, start as int, end as int, 0) =~= Set::<(usize, usize, bool)>::empty());
            assert(base.union(Set::empty()) =~= base);
            while t < end - start
                invariant
                    start <= end < path_states@.len(),
                    k < substr_defs_array@.len(),
                    substr_defs_array@.len() == old_defs.len(),
                    entry.len() == old_defs.len(),
                    t <= end - start,
                    substr_defs_array@[k as int]@ == base.union(span_defs_upto(path_states@, start as int, end as int, t as int)),
                    forall|m: int| 0 <= m < old_defs.len() && m != k ==> #[trigger] substr_defs_array@[m] == entry[m],
                decreases end - start - t,
            {
                let is_last = (t == end - start - 1) && t > 0;
                let d = (path_states[start + t], path_states[start + t + 1], is_last);
                assert(d == span_pair(path_states@, start as int, end as int, t as int));
                substr_defs_array[k].insert(d);
                assert(span_defs_upto(path_states@, start as int, end as int, t + 1) =~= span_defs_upto(
                    path_states@,
                    start as int,
                    end as int,
                    t as int,
                ).insert(d));
                assert(substr_defs_array@[k as int]@ =~= base.union(span_defs_upto(path_states@, start as int, end as int, t + 1)));
                t = t + 1;
            }
            k = k + 1;
        }
        assert forall|m: int| 0 <= m < old_defs.len() implies #[trigger] defs_view(substr_defs_array@)[m] == if m < public_config_indexes@.len() {
            defs_view(old_defs)[m].union(span_defs(path_states@, span_start(ends@, public_config_indexes@[m]), ends@[public_config_indexes@[m] as int] as int))
        } else {
            defs_view(old_defs)[m]
        } by {
            assert(substr_defs_array@[m]@ == defs_view(substr_defs_array@)[m]);
        }
    }

    /// [`EntryConfig::add_substr_defs_from_path`] on the inputs where the path
    /// can be recorded (see [`substr_defs_ok`]); elsewhere it returns `false`
    /// and leaves the sets unchanged.
    pub fn try_add_substr_defs_from_path(
        &self,
        substr_defs_array: &mut Vec<SubstrDefs>,
        path_states: &[usize],
        path_strs: &[String],
        part_regexes: &[PartRegex],
        public_config_indexes: &[usize],
    ) -> (done: bool)
        ensures
            done == substr_defs_ok(
                path_states@,
                strings_view(path_strs@),
                patterns_view(part_regexes@),
                public_config_indexes@,
                old(substr_defs_array)@.len(),
            ),
            !done ==> final(substr_defs_array)@ == old(substr_defs_array)@,
            done ==> substr_defs_recorded(
                defs_view(old(substr_defs_array)@),
                defs_view(final(substr_defs_array)@),
                path_states@,
                strings_view(path_strs@),
                patterns_view(part_regexes@),
                public_config_indexes@,
            ),
    {
        let ghost strs = strings_view(path_strs@);
        let ghost pats = patterns_view(part_regexes@);
        if path_states.len() == 0 || path_states.len() - 1 != path_strs.len() {
            return false;
        }
        let mut j: usize = 0;
        while j < path_strs.len()
            invariant
                j <= path_strs@.len(),
                strs == strings_view(path_strs@),
                forall|i: int| 0 <= i < j ==> (#[trigger] strs[i]).len() > 0,
            decreases path_strs.len() - j,
        {
            assert(strs[j as int] == path_strs@[j as int]@);
            if path_strs[j].as_str().unicode_len() == 0 {
                return false;
            }
            j = j + 1;
        }
        assert forall|i: int| 0 <= i < path_strs@.len() implies (#[trigger] path_strs@[i])@.len() > 0 by {
            assert(strs[i] == path_strs@[i]@);
        }
        let text = path_text_of(path_strs);
        let ends = match match_ends_of(part_regexes, text.as_str()) {
            Some(v) => v,
            None => {
                return false;
            },
        };
        let n = if public_config_indexes.len() < substr_defs_array.len() {
            public_config_indexes.len()
        } else {
            substr_defs_array.len()
        };
        let mut k: usize = 0;
        while k < n
            invariant
                k <= n,
                n == min_len(substr_defs_array@.len(), public_config_indexes@.len()),
                ends@ == match_ends(pats, text@),
                pats == patterns_view(part_regexes@),
                substr_defs_array@ == old(substr_defs_array)@,
                text@ == path_text(strs),
                strs == strings_view(path_strs@),
                forall|m: int|
                    0 <= m < k ==> {
                        &&& (#[trigger] public_config_indexes@[m]) < pats.len()
                        &&& span_start(ends@, public_config_indexes@[m]) <= ends@[public_config_indexes@[m] as int]
                        &&& ends@[public_config_indexes@[m] as int] < path_states@.len()
                    },
            decreases n - k,
        {
            let index = public_config_indexes[k];
            if index >= part_regexes.len() {
                return false;
            }
            let start = if index == 0 {
                0
            } else {
                ends[index - 1]
            };
            let end = ends[index];
            if start > end || end >= path_states.len() {
                return false;
            }
            k = k + 1;
        }
        self.add_substr_defs_from_path(substr_defs_array, path_states, path_strs, part_regexes, public_config_indexes);
        true
    }
}

/// Whether `i` starts or ends an unmarked transition of `defs`.
pub open spec fn touches_unmarked(defs: Set<(usize, usize, bool)>, i: usize) -> bool {
    exists|d: (usize, usize, bool)| #[trigger] defs.contains(d) && (d.0 == i || d.1 == i) && !d.2
}

/// The transitions `(i, i, false)` for the self-looping states `i` of
/// `self_nodes` that start or end an unmarked transition of `defs`.
pub open spec fn self_loop_defs(defs: Set<(usize, usize, bool)>, self_nodes: Seq<usize>) -> Set<(usize, usize, bool)> {
    Set::new(
        |d: (usize, usize, bool)|
            exists|j: int|
                0 <= j < self_nodes.len() && d == (self_nodes[j], self_nodes[j], false) && touches_unmarked(
                    defs,
                    #[trigger] self_nodes[j],
                ),
    )
}

fn has_unmarked_touching(defs: &SubstrDefs, i: usize) -> (r: bool)
    ensures
        r == touches_unmarked(defs@, i),
{
    let entries = defs.entries();
    let mut k: usize = 0;
    while k < entries.len()
        invariant
            entries@ == defs.order(),
            k <= entries@.len(),
            forall|m: int| 0 <= m < k ==> !(((#[trigger] entries@[m]).0 == i || entries@[m].1 == i) && !entries@[m].2),
        decreases entries.len() - k,
    {
        let d = entries[k];
        if (d.0 == i || d.1 == i) && !d.2 {
            assert(defs@.contains(d)) by {
                assert(defs.order()[k as int] == d);
            }
            return true;
        }
        k = k + 1;
    }
    assert forall|d: (usize, usize, bool)| #[trigger] defs@.contains(d) implies !((d.0 == i || d.1 == i) && !d.2) by {
        let m = choose|m: int| 0 <= m < defs.order().len() && defs.order()[m] == d;
        assert(entries@[m] == d);
    }
    false
}

/// For each self-looping state `i` of `self_nodes` and each set, adds `(i, i,
/// false)` to the set when `i` starts or ends one of its unmarked transitions.
pub fn add_self_loop_defs(substr_defs_array: &mut Vec<SubstrDefs>, self_nodes: &[usize])
    ensures
        final(substr_defs_array)@.len() == old(substr_defs_array)@.len(),
        forall|k: int|
            0 <= k < old(substr_defs_array)@.len() ==> (#[trigger] final(substr_defs_array)@[k])@ == old(
                substr_defs_array,
            )@[k]@.union(self_loop_defs(old(substr_defs_array)@[k]@, self_nodes@)),
{
    let ghost old_defs = substr_defs_array@;
    let mut j: usize = 0;
    proof {
        assert forall|k: int| 0 <= k < old_defs.len() implies (#[trigger] substr_defs_array@[k])@ == old_defs[k]@.union(
            self_loop_defs(old_defs[k]@, self_nodes@.take(0)),
        ) by {
            assert(old_defs[k]@.union(self_loop_defs(old_defs[k]@, self_nodes@.take(0))) =~= old_defs[k]@);
        }
    }
    while j < self_nodes.len()
        invariant
            j <= self_nodes@.len(),
            substr_defs_array@.len() == old_defs.len(),
            forall|k: int|
                0 <= k < old_defs.len() ==> (#[trigger] substr_defs_array@[k])@ == old_defs[k]@.union(
                    self_loop_defs(old_defs[k]@, self_nodes@.take(j as int)),
                ),
        decreases self_nodes.len() - j,
    {
        let index = self_nodes[j];
        let ghost entry = substr_defs_array@;
        let mut k: usize = 0;
        while k < substr_defs_array.len()
            invariant
                j < self_nodes@.len(),
                index == self_nodes@[j as int],
                k <= substr_defs_array@.len(),
                substr_defs_array@.len() == old_defs.len(),
                entry.len() == old_defs.len(),
                forall|m: int|
                    0 <= m < old_defs.len() ==> (#[trigger] entry[m])@ == old_defs[m]@.union(
                        self_loop_defs(old_defs[m]@, self_nodes@.take(j as int)),
                    ),
                forall|m: int|
                    k <= m < old_defs.len() ==> #[trigger] substr_defs_array@[m] == entry[m],
                forall|m: int|
                    0 <= m < k ==> (#[trigger] substr_defs_array@[m])@ == old_defs[m]@.union(
                        self_loop_defs(old_defs[m]@, self_nodes@.take(j + 1)),
                    ),
            decreases substr_defs_array.len() - k,
        {
            let ghost cur = entry[k as int]@;
            let ghost base = old_defs[k as int]@;
            let ghost added = self_loop_defs(base, self_nodes@.take(j as int));
            proof {
                lemma_self_loops_keep_touching(base, self_nodes@.take(j as int), index);
            }
            let touched = has_unmarked_touching(&substr_defs_array[k], index);
            if touched {
                substr_defs_array[k].insert((index, index, false));
            }
            proof {
                let next = self_loop_defs(base, self_nodes@.take(j + 1));
                assert(self_nodes@.take(j + 1) =~= self_nodes@.take(j as int).push(index));
                assert forall|d: (usize, usize, bool)| #[trigger] next.contains(d) <==> (added.contains(d) || (touched && d == (index, index, false))) by {
                    let s1 = self_nodes@.take(j + 1);
                    let s0 = self_nodes@.take(j as int);
                    if next.contains(d) {
                        let w = choose|w: int| 0 <= w < s1.len() && d == (s1[w], s1[w], false) && touches_unmarked(base, #[trigger] s1[w]);
                        if w < j {
                            assert(s0[w] == s1[w]);
                            assert(added.contains(d));
                        }
                    }
                    if added.contains(d) {
                        let w = choose|w: int| 0 <= w < s0.len() && d == (s0[w], s0[w], false) && touches_unmarked(base, #[trigger] s0[w]);
                        assert(s1[w] == s0[w]);
                        assert(next.contains(d));
                    }
                    if touched && d == (index, index, false) {
                        assert(s1[j as int] == index);
                        assert(next.contains(d));
                    }
                }
                assert(substr_defs_array@[k as int]@ =~= base.union(next));
            }
            k = k + 1;
        }
        j = j + 1;
    }
    assert(self_nodes@.take(j as int) =~= self_nodes@);
}

/// The lines `from to` of the transitions, in order.
pub open spec fn def_lines(entries: Seq<(usize, usize, bool)>) -> Seq<char>
    decreases entries.len(),
{
    if entries.len() == 0 {
        seq![]
    } else {
        def_lines(entries.drop_last()) + decimal(entries.last().0 as nat) + " "@ + decimal(entries.last().1 as nat) + "\n"@
    }
}

/// The substring definition file of a public part: its largest size, the range
/// `0` to one less than the body size limit, then one line per transition.
pub open spec fn substr_def_file_text(max_size: usize, max_body_size: usize, entries: Seq<(usize, usize, bool)>) -> Seq<char> {
    decimal(max_size as nat) + "\n0\n"@ + decimal((max_body_size - 1) as nat) + "\n"@ + def_lines(entries)
}

impl EntryConfig {
    /// The substring definition file of a public part with largest size
    /// `max_size` and transitions `defs` (see [`substr_def_file_text`]).
    pub fn substr_def_file(&self, max_size: usize, defs: &SubstrDefs) -> (r: String)
        requires
            self.max_body_size >= 1,
        ensures
            r@ == substr_def_file_text(max_size, self.max_body_size, defs.order()),
    {
        let mut out: Vec<char> = Vec::new();
        push_decimal(&mut out, max_size);
        push_str(&mut out, "\n0\n");
        push_decimal(&mut out, self.max_body_size - 1);
        push_str(&mut out, "\n");
        let ghost head = out@;
        let entries = defs.entries();
        let mut k: usize = 0;
        assert(entries@.take(0) =~= Seq::<(usize, usize, bool)>::empty());
        assert(out@ =~= head + def_lines(entries@.take(0)));
        while k < entries.len()
            invariant
                k <= entries@.len(),
                out@ == head + def_lines(entries@.take(k as int)),
            decreases entries.len() - k,
        {
            let (cur, next, _) = entries[k];
            push_decimal(&mut out, cur);
            push_str(&mut out, " ");
            push_decimal(&mut out, next);
            push_str(&mut out, "\n");
            assert(entries@.take(k + 1).drop_last() =~= entries@.take(k as int));
            assert(out@ =~= head + def_lines(entries@.take(k + 1)));
            k = k + 1;
        }
        assert(entries@.take(k as int) =~= entries@);
        string_from_chars(out.as_slice())
    }
}


/// Recording a path only adds transitions: every set keeps what it had.
pub proof fn lemma_recorded_keeps(
    before: Seq<Set<(usize, usize, bool)>>,
    after: Seq<Set<(usize, usize, bool)>>,
    states: Seq<usize>,
    strs: Seq<Seq<char>>,
    patterns: Seq<Seq<char>>,
    publics: Seq<usize>,
)
    requires
        substr_defs_recorded(before, after, states, strs, patterns, publics),
    ensures
        forall|k: int| 0 <= k < before.len() ==> before[k].subset_of(#[trigger] after[k]),
{
    assert forall|k: int| 0 <= k < before.len() implies before[k].subset_of(#[trigger] after[k]) by {
        assert(after[k] == if k < publics.len() {
            before[k].union(span_defs(states, span_start(match_ends(patterns, path_text(strs)), publics[k]), match_ends(patterns, path_text(strs))[publics[k] as int] as int))
        } else {
            before[k]
        });
    }
}

/// Recording the same path a second time changes nothing.
pub proof fn lemma_recording_twice(
    before: Seq<Set<(usize, usize, bool)>>,
    mid: Seq<Set<(usize, usize, bool)>>,
    after: Seq<Set<(usize, usize, bool)>>,
    states: Seq<usize>,
    strs: Seq<Seq<char>>,
    patterns: Seq<Seq<char>>,
    publics: Seq<usize>,
)
    requires
        substr_defs_recorded(before, mid, states, strs, patterns, publics),
        substr_defs_recorded(mid, after, states, strs, patterns, publics),
    ensures
        after == mid,
{
    let ends = match_ends(patterns, path_text(strs));
    assert forall|k: int| 0 <= k < mid.len() implies #[trigger] after[k] == mid[k] by {
        assert(mid[k] == if k < publics.len() {
            before[k].union(span_defs(states, span_start(ends, publics[k]), ends[publics[k] as int] as int))
        } else {
            before[k]
        });
        assert(after[k] == if k < publics.len() {
            mid[k].union(span_defs(states, span_start(ends, publics[k]), ends[publics[k] as int] as int))
        } else {
            mid[k]
        });
        assert(after[k] =~= mid[k]);
    }
    assert(after =~= mid);
}

/// Adding self-loop transitions changes no state's contact with unmarked
/// transitions.
proof fn lemma_self_loops_keep_touching(base: Set<(usize, usize, bool)>, self_nodes: Seq<usize>, i: usize)
    ensures
        touches_unmarked(base.union(self_loop_defs(base, self_nodes)), i) == touches_unmarked(base, i),
{
    let cur = base.union(self_loop_defs(base, self_nodes));
    if touches_unmarked(cur, i) {
        let d = choose|d: (usize, usize, bool)| #[trigger] cur.contains(d) && (d.0 == i || d.1 == i) && !d.2;
        if !base.contains(d) {
            let w = choose|w: int|
                0 <= w < self_nodes.len() && d == (self_nodes[w], self_nodes[w], false) && touches_unmarked(
                    base,
                    #[trigger] self_nodes[w],
                );
            assert(self_nodes[w] == i);
        }
    }
    if touches_unmarked(base, i) {
        let d = choose|d: (usize, usize, bool)| #[trigger] base.contains(d) && (d.0 == i || d.1 == i) && !d.2;
        assert(cur.contains(d));
    }
}

/// Adding the self-loop transitions a second time changes nothing.
pub proof fn lemma_self_loops_idempotent(base: Set<(usize, usize, bool)>, self_nodes: Seq<usize>)
    ensures
        ({
            let once = base.union(self_loop_defs(base, self_nodes));
            once.union(self_loop_defs(once, self_nodes)) == once
        }),
{
    let once = base.union(self_loop_defs(base, self_nodes));
    assert forall|d: (usize, usize, bool)| #[trigger] self_loop_defs(once, self_nodes).contains(d) implies once.contains(d) by {
        let w = choose|w: int|
            0 <= w < self_nodes.len() && d == (self_nodes[w], self_nodes[w], false) && touches_unmarked(
                once,
                #[trigger] self_nodes[w],
            );
        lemma_self_loops_keep_touching(base, self_nodes, self_nodes[w]);
        assert(self_loop_defs(base, self_nodes).contains(d));
    }
    assert(once.union(self_loop_defs(once, self_nodes)) =~= once);
}


/// Recording a path adds, for the public part at index `i = publics[k]`,
/// exactly the steps of the path from where the first match of the regex of
/// the parts before it ends (or 0 for the first part) up to where the first
/// match of the regex of the parts up to it ends; the last of several steps is
/// marked. No step before the end of the parts before it is recorded.
pub proof fn lemma_recorded_span_of_public_part(
    before: Seq<Set<(usize, usize, bool)>>,
    after: Seq<Set<(usize, usize, bool)>>,
    states: Seq<usize>,
    strs: Seq<Seq<char>>,
    patterns: Seq<Seq<char>>,
    publics: Seq<usize>,
    k: int,
    d: (usize, usize, bool),
)
    requires
        substr_defs_recorded(before, after, states, strs, patterns, publics),
        substr_defs_ok(states, strs, patterns, publics, before.len()),
        0 <= k < before.len(),
        k < publics.len(),
    ensures
        ({
            let text = path_text(strs);
            let i = publics[k];
            let end = match_end(patterns[i as int], text)->0 as int;
            let start = if i == 0 {
                0
            } else {
                match_end(patterns[i - 1], text)->0 as int
            };
            after[k].contains(d) <==> before[k].contains(d) || exists|u: int|
                start <= u < end && d == (#[trigger] states[u], states[u + 1], u == end - 1 && u > start)
        }),
{
    let text = path_text(strs);
    let ends = match_ends(patterns, text);
    let i = publics[k];
    assert(k < min_len(before.len(), publics.len()));
    assert(i < patterns.len());
    let end = match_end(patterns[i as int], text)->0 as int;
    let start = if i == 0 {
        0
    } else {
        match_end(patterns[i - 1], text)->0 as int
    };
    assert(ends[i as int] as int == end);
    assert(span_start(ends, i) == start);
    assert(after[k] == before[k].union(span_defs(states, start, end)));
    if span_defs(states, start, end).contains(d) {
        let t = choose|t: int| 0 <= t < end - start && d == #[trigger] span_pair(states, start, end, t);
        assert(d == (states[start + t], states[start + t + 1], start + t == end - 1 && start + t > start));
    }
    if exists|u: int| start <= u < end && d == (#[trigger] states[u], states[u + 1], u == end - 1 && u > start) {
        let u = choose|u: int| start <= u < end && d == (#[trigger] states[u], states[u + 1], u == end - 1 && u > start);
        assert(d == span_pair(states, start, end, u - start));
    }
}

} // verus!
