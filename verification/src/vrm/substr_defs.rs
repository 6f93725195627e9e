use vstd::prelude::*;

verus! {

/// A set of substring transitions `(from, to, is_last)`, kept in the order they
/// were first added.
pub struct SubstrDefs {
    entries: Vec<(usize, usize, bool)>,
}

impl View for SubstrDefs {
    type V = Set<(usize, usize, bool)>;

    open spec fn view(&self) -> Set<(usize, usize, bool)> {
        self.order().to_set()
    }
}

impl SubstrDefs {
    /// The transitions, in the order they were first added.
    pub closed spec fn order(&self) -> Seq<(usize, usize, bool)> {
        self.entries@
    }

    #[verifier::type_invariant]
    closed spec fn no_duplicates(&self) -> bool {
        self.entries@.no_duplicates()
    }

    /// An empty set.
    pub fn new() -> (s: SubstrDefs)
        ensures
            s@ == Set::<(usize, usize, bool)>::empty(),
            s.order() == Seq::<(usize, usize, bool)>::empty(),
    {
        let s = SubstrDefs { entries: Vec::new() };
        assert(s.entries@.to_set() =~= Set::<(usize, usize, bool)>::empty());
        s
    }

    /// Whether `d` is in the set.
    pub fn contains(&self, d: (usize, usize, bool)) -> (r: bool)
        ensures
            r == self@.contains(d),
    {
        let mut i: usize = 0;
        while i < self.entries.len()
            invariant
                i <= self.entries@.len(),
                forall|j: int| 0 <= j < i ==> self.entries@[j] != d,
            decreases self.entries.len() - i,
        {
            let e = self.entries[i];
            if e.0 == d.0 && e.1 == d.1 && e.2 == d.2 {
                assert(self.entries@.contains(d));
                return true;
            }
            i = i + 1;
        }
        assert(!self.entries@.contains(d));
        false
    }

    /// Adds `d` to the set; a new transition goes last in the order.
    pub fn insert(&mut self, d: (usize, usize, bool))
        ensures
            final(self)@ == old(self)@.insert(d),
            old(self)@.contains(d) ==> final(self).order() == old(self).order(),
            !old(self)@.contains(d) ==> final(self).order() == old(self).order().push(d),
    {
        proof {
            use_type_invariant(&*self);
        }
        if !self.contains(d) {
            let ghost old_entries = self.entries@;
            let mut entries = Vec::new();
            std::mem::swap(&mut entries, &mut self.entries);
            entries.push(d);
            proof {
                assert(entries@ =~= old_entries.push(d));
                assert(entries@.no_duplicates());
            }
            self.entries = entries;
            proof { old_entries.lemma_push_to_set_commute(d); }
        } else {
            assert(self.entries@.to_set().insert(d) =~= self.entries@.to_set());
        }
    }

    /// The transitions, in the order they were first added.
    pub fn entries(&self) -> (r: &Vec<(usize, usize, bool)>)
        ensures
            r@ == self.order(),
            r@.no_duplicates(),
    {
        proof {
            use_type_invariant(self);
        }
        &self.entries
    }
}

} // verus!
