//! Arcs: a tip vertex, named by its index, auxiliary fields and a name.
use vstd::prelude::*;

use crate::fields::FieldBuilder;

verus! {

/// An arc of the graph, leaving the vertex that holds it.
#[derive(Debug)]
pub struct Arc {
    pub tip: Option<usize>,
    pub fields: FieldBuilder,
    pub id: String,
}

/// Two arcs are equal when both have a tip and the tips are the same vertex.
pub open spec fn same_tip(a: Option<usize>, b: Option<usize>) -> bool {
    match (a, b) {
        (Some(x), Some(y)) => x == y,
        _ => false,
    }
}

impl PartialEq for Arc {
    fn eq(&self, other: &Self) -> (r: bool) {
        match (self.tip, other.tip) {
            (Some(x), Some(y)) => x == y,
            _ => false,
        }
    }
}

impl vstd::std_specs::cmp::PartialEqSpecImpl for Arc {
    open spec fn obeys_eq_spec() -> bool {
        true
    }

    open spec fn eq_spec(&self, other: &Self) -> bool {
        same_tip(self.tip, other.tip)
    }
}

/// Arc equality is symmetric.
pub proof fn lemma_arc_eq_symmetric(a: Arc, b: Arc)
    ensures
        same_tip(a.tip, b.tip) == same_tip(b.tip, a.tip),
{
}

/// An arc equals itself exactly when it has a tip: equality of arcs is not
/// reflexive on arcs without one.
pub proof fn lemma_arc_eq_reflexive_iff_tip(a: Arc)
    ensures
        same_tip(a.tip, a.tip) <==> a.tip is Some,
{
}

/// Arc equality is transitive.
pub proof fn lemma_arc_eq_transitive(a: Arc, b: Arc, c: Arc)
    requires
        same_tip(a.tip, b.tip),
        same_tip(b.tip, c.tip),
    ensures
        same_tip(a.tip, c.tip),
{
}

impl Arc {
    /// A fresh arc to the vertex of index `tip`: no fields, empty name.
    pub open spec fn is_fresh_to(&self, tip: usize) -> bool {
        &&& self.tip == Some(tip)
        &&& self.fields.usizes is None
        &&& self.fields.strings is None
        &&& self.id@ == Seq::<char>::empty()
    }

    pub fn new_to(tip: usize) -> (r: Arc)
        ensures
            r.is_fresh_to(tip),
    {
        Arc { tip: Some(tip), fields: FieldBuilder::new(), id: String::new() }
    }

    /// The name of the arc.
    pub fn get_id(&self) -> (r: &str)
        ensures
            r@ == self.id@,
    {
        self.id.as_str()
    }

    /// Names the arc after what `other_fn` produces.
    pub fn set_id_with<F: FnOnce() -> String>(&mut self, other_fn: F)
        requires
            other_fn.requires(()),
        ensures
            other_fn.ensures((), final(self).id),
            final(self).tip == old(self).tip,
            final(self).fields == old(self).fields,
    {
        self.id = other_fn();
    }

    /// Names the arc `other`.
    pub fn set_id(&mut self, other: &str)
        ensures
            final(self).id@ == other@,
            final(self).tip == old(self).tip,
            final(self).fields == old(self).fields,
    {
        self.id = other.to_owned();
    }
}

} // verus!
