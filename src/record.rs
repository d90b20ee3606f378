//! A metadata record: at most one text value per recognized field.
use vstd::prelude::*;
use crate::field::{Field, FIELD_COUNT, field_index};

verus! {

/// Maps each recognized field to an optional text value.
pub struct Record {
    values: Vec<Option<String>>,
}

/// The text view of an optional string.
pub open spec fn opt_view(o: Option<String>) -> Option<Seq<char>> {
    match o {
        Some(s) => Some(s@),
        None => None,
    }
}

impl Record {
    /// The record as a sequence indexed by canonical field position.
    pub closed spec fn view(&self) -> Seq<Option<Seq<char>>> {
        self.values@.map_values(|o: Option<String>| opt_view(o))
    }

    /// A record holds exactly one slot per recognized field.
    pub closed spec fn wf(&self) -> bool {
        self.values@.len() == FIELD_COUNT
    }

    /// The value of a field in the model.
    pub open spec fn spec_get(&self, f: Field) -> Option<Seq<char>> {
        self.view()[field_index(f) as int]
    }

    pub proof fn lemma_wf_len(&self)
        requires
            self.wf(),
        ensures
            self.view().len() == FIELD_COUNT,
    {
    }

    /// An empty record.
    pub fn new() -> (r: Record)
        ensures
            r.wf(),
            r.view() == Seq::new(FIELD_COUNT as nat, |i: int| None::<Seq<char>>),
    {
        let mut values: Vec<Option<String>> = Vec::new();
        let mut i: usize = 0;
        while i < FIELD_COUNT
            invariant
                i <= FIELD_COUNT,
                values@.len() == i,
                forall|j: int| 0 <= j < i ==> values@[j] is None,
            decreases FIELD_COUNT - i,
        {
            values.push(None);
            i = i + 1;
        }
        let r = Record { values };
        assert(r.view() =~= Seq::new(FIELD_COUNT as nat, |i: int| None::<Seq<char>>));
        r
    }

    /// The value stored for a field, if any.
    pub fn get(&self, f: Field) -> (r: Option<&String>)
        requires
            self.wf(),
        ensures
            r matches Some(s) ==> self.spec_get(f) == Some(s@),
            r is None <==> self.spec_get(f) is None,
    {
        let i = f.index();
        match &self.values[i] {
            Some(s) => Some(s),
            None => None,
        }
    }

    /// Stores a value for a field, replacing any earlier one.
    pub fn set(&mut self, f: Field, v: String)
        requires
            old(self).wf(),
        ensures
            final(self).wf(),
            final(self).view() == old(self).view().update(field_index(f) as int, Some(v@)),
    {
        let i = f.index();
        self.values.set(i, Some(v));
        assert(self.view() =~= old(self).view().update(field_index(f) as int, Some(v@)));
    }

    /// Removes the value of a field.
    pub fn remove(&mut self, f: Field)
        requires
            old(self).wf(),
        ensures
            final(self).wf(),
            final(self).view() == old(self).view().update(field_index(f) as int, None),
    {
        let i = f.index();
        self.values.set(i, None);
        assert(self.view() =~= old(self).view().update(field_index(f) as int, None));
    }
}

} // verus!
