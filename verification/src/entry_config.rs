use crate::vrm::entry_config::{parts_view, BodyPartConfig, BodyPartView};
use std::collections::HashMap;
use vstd::prelude::*;

verus! {

/// A rule's body regex split into parts, with the largest body size it reads.
#[derive(Debug, Clone)]
pub struct DecomposedRegexConfig {
    pub max_byte_size: usize,
    pub parts: Vec<BodyPartConfig>,
}

/// The configuration of all rules: the header size limit and each rule's
/// decomposed body regex, by id.
#[derive(Debug, Clone)]
pub struct EntryConfig {
    pub max_header_size: usize,
    pub rules: HashMap<usize, DecomposedRegexConfig>,
}

/// The mathematical form of a [`DecomposedRegexConfig`].
pub struct DecomposedView {
    pub max_byte_size: usize,
    pub parts: Seq<BodyPartView>,
}

impl View for DecomposedRegexConfig {
    type V = DecomposedView;

    open spec fn view(&self) -> DecomposedView {
        DecomposedView { max_byte_size: self.max_byte_size, parts: parts_view(self.parts@) }
    }
}

impl EntryConfig {
    /// Each rule, by id.
    pub open spec fn rules_view(&self) -> Map<usize, DecomposedView> {
        self.rules@.map_values(|r: DecomposedRegexConfig| r@)
    }

    /// Rule `id`, which must exist.
    pub fn rule(&self, id: usize) -> (r: &DecomposedRegexConfig)
        requires
            self.rules@.contains_key(id),
        ensures
            r@ == self.rules_view()[id],
    {
        broadcast use vstd::std_specs::hash::group_hash_axioms;
        match self.rules.get(&id) {
            Some(r) => r,
            None => {
                assert(false);
                self.rules.get(&id).unwrap()
            },
        }
    }
}

} // verus!
