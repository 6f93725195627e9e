use std::collections::HashMap;
use vstd::prelude::*;

verus! {

/// The Solidity type that a public part of an email body is decoded to.
#[derive(Debug, Clone, Copy, PartialEq, Eq)]
pub enum SolidityType {
    String,
    Uint,
    Decimal,
}

/// One part of a rule's body regex: its regex, whether the matched substring is
/// revealed, the largest size of that substring, and its Solidity type.
#[derive(Debug, Clone)]
pub struct BodyPartConfig {
    pub is_public: bool,
    pub regex_def: String,
    pub max_size: usize,
    pub solidity: Option<SolidityType>,
}

/// The mathematical form of a [`BodyPartConfig`].
pub struct BodyPartView {
    pub is_public: bool,
    pub regex_def: Seq<char>,
    pub max_size: usize,
    pub solidity: Option<SolidityType>,
}

impl View for BodyPartConfig {
    type V = BodyPartView;

    open spec fn view(&self) -> BodyPartView {
        BodyPartView {
            is_public: self.is_public,
            regex_def: self.regex_def@,
            max_size: self.max_size,
            solidity: self.solidity,
        }
    }
}

pub open spec fn parts_view(parts: Seq<BodyPartConfig>) -> Seq<BodyPartView> {
    parts.map_values(|p: BodyPartConfig| p@)
}

/// The configuration of all rules: header and body size limits, and the body
/// parts of each rule by its id.
#[derive(Debug, Clone)]
pub struct EntryConfig {
    pub max_header_size: usize,
    pub max_body_size: usize,
    pub rules: HashMap<usize, Vec<BodyPartConfig>>,
}

impl EntryConfig {
    /// The body parts of each rule, by id.
    pub open spec fn rules_view(&self) -> Map<usize, Seq<BodyPartView>> {
        self.rules@.map_values(|v: Vec<BodyPartConfig>| parts_view(v@))
    }

    /// The body parts of rule `id`, which must exist.
    pub fn rule_parts(&self, id: usize) -> (parts: &Vec<BodyPartConfig>)
        requires
            self.rules@.contains_key(id),
        ensures
            parts_view(parts@) == self.rules_view()[id],
    {
        broadcast use vstd::std_specs::hash::group_hash_axioms;
        match self.rules.get(&id) {
            Some(p) => p,
            None => {
                assert(false);
                self.rules.get(&id).unwrap()
            },
        }
    }
}

} // verus!
