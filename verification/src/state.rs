//! The table of finite fields that coefficients refer to by index.

use crate::finite_field::FiniteField;
use vstd::prelude::*;

verus! {

/// Position of a finite field in the table of a [`State`].
#[derive(Debug, Clone, Copy, PartialEq, Eq, Structural)]
pub struct FiniteFieldIndex(pub usize);

/// The finite fields known to a computation.
pub struct State {
    finite_fields: Vec<FiniteField>,
}

impl View for State {
    type V = Seq<FiniteField>;

    closed spec fn view(&self) -> Seq<FiniteField> {
        self.finite_fields@
    }
}

impl State {
    /// Every field of the table is well formed.
    pub open spec fn wf(&self) -> bool {
        forall|i: int| 0 <= i < self@.len() ==> (#[trigger] self@[i]).wf()
    }

    /// Whether `index` names a field of the table.
    pub open spec fn has_field(&self, index: FiniteFieldIndex) -> bool {
        (index.0 as int) < self@.len()
    }

    /// A state without finite fields.
    pub fn new() -> (s: State)
        ensures
            s.wf(),
            s@.len() == 0,
    {
        State { finite_fields: Vec::new() }
    }

    /// The index of the field with the modulus of `field`, which is added to
    /// the table if it is not there yet.
    pub fn get_or_insert_finite_field(&mut self, field: FiniteField) -> (index: FiniteFieldIndex)
        requires
            old(self).wf(),
            field.wf(),
        ensures
            final(self).wf(),
            final(self).has_field(index),
            final(self)@[index.0 as int].prime() == field.prime(),
            old(self)@.len() <= final(self)@.len() <= old(self)@.len() + 1,
            forall|i: int| 0 <= i < old(self)@.len() ==> final(self)@[i] == old(self)@[i],
            final(self)@.len() == old(self)@.len() <==> exists|i: int|
                0 <= i < old(self)@.len() && (#[trigger] old(self)@[i]).prime() == field.prime(),
            forall|i: int|
                0 <= i < index.0 ==> (#[trigger] old(self)@[i]).prime() != field.prime(),
    {
        let mut i: usize = 0;
        while i < self.finite_fields.len()
            invariant
                i <= self.finite_fields.len(),
                *self == *old(self),
                self.wf(),
                field.wf(),
                forall|j: int| 0 <= j < i ==> (#[trigger] self@[j]).prime() != field.prime(),
            decreases self.finite_fields.len() - i,
        {
            if self.finite_fields[i].get_prime() == field.get_prime() {
                return FiniteFieldIndex(i);
            }
            i += 1;
        }
        self.finite_fields.push(field);
        FiniteFieldIndex(i)
    }

    /// Whether `index` names a field of the table.
    pub fn contains(&self, index: FiniteFieldIndex) -> (r: bool)
        ensures
            r == self.has_field(index),
    {
        index.0 < self.finite_fields.len()
    }

    /// The field at `index`.
    pub fn get_finite_field(&self, index: FiniteFieldIndex) -> (field: &FiniteField)
        requires
            self.has_field(index),
        ensures
            *field == self@[index.0 as int],
    {
        &self.finite_fields[index.0]
    }
}

} // verus!
