use fancy_regex::Regex;
use vstd::prelude::*;
use vstd::utf8::encode_utf8;

verus! {

#[verifier::external_type_specification]
#[verifier::external_body]
pub struct ExRegex(Regex);

/// Whether `fancy_regex::Regex::new` accepts the pattern.
pub uninterp spec fn regex_compiles(pattern: Seq<char>) -> bool;

/// What `fancy_regex::Regex::find` gives for a compiled pattern and a text:
/// `None` for a matching error (such as the backtrack limit), `Some(None)` when
/// there is no match, and otherwise the byte offsets of the first match.
pub uninterp spec fn regex_find(pattern: Seq<char>, text: Seq<char>) -> Option<Option<(usize, usize)>>;

/// A compiled regex together with the pattern it was compiled from.
pub struct PartRegex {
    pattern: String,
    re: Regex,
}

impl View for PartRegex {
    type V = Seq<char>;

    closed spec fn view(&self) -> Seq<char> {
        self.pattern@
    }
}

/// Calls `fancy_regex::Regex::new` on `pattern`; the regex is kept with its
/// pattern. Which patterns compile is named `regex_compiles`.
#[verifier::external_body]
pub(crate) fn compile_regex(pattern: &str) -> (r: Option<PartRegex>)
    ensures
        r is Some <==> regex_compiles(pattern@),
        r matches Some(re) ==> re@ == pattern@,
{
    match Regex::new(pattern) {
        Ok(re) => Some(PartRegex { pattern: pattern.to_string(), re }),
        Err(_) => None,
    }
}

/// Calls `fancy_regex::Regex::find` on `text`: the outcome is named
/// `regex_find`, applied to the pattern the regex was compiled from. A match
/// lies within the text: its start is at most its end, which is at most the
/// byte length of the text (and so at most `isize::MAX`).
#[verifier::external_body]
pub(crate) fn find_match(re: &PartRegex, text: &str) -> (r: Option<Option<(usize, usize)>>)
    ensures
        r == regex_find(re@, text@),
        r matches Some(Some((s, e))) ==> s <= e && e <= encode_utf8(text@).len() && e <= isize::MAX,
{
    match re.re.find(text) {
        Ok(Some(m)) => Some(Some((m.start(), m.end()))),
        Ok(None) => Some(None),
        Err(_) => None,
    }
}

impl PartRegex {
    /// The pattern the regex was compiled from.
    pub fn pattern(&self) -> (p: &str)
        ensures
            p@ == self@,
    {
        self.pattern.as_str()
    }
}

} // verus!
