//! Vertices: their outgoing arcs, auxiliary fields and name.
use vstd::prelude::*;

use crate::backend::arc::Arc;
use crate::fields::{
    bucket_items, fill_bucket, grown_by, padded, same_bucket, string_views, FieldBuilder,
    FieldsExtError,
};

verus! {

/// A vertex of the graph, with the arcs that leave it.
#[derive(Debug)]
pub struct Vertex {
    pub arcs: Vec<Arc>,
    pub fields: FieldBuilder,
    pub id: String,
}

/// The default integer field.
fn zero_field() -> (z: Result<usize, FieldsExtError>)
    ensures
        z == Ok::<usize, FieldsExtError>(0usize),
{
    Ok(0)
}

/// The default string field.
fn empty_string_field() -> (z: Result<String, FieldsExtError>)
    ensures
        z matches Ok(s) && s@ == Seq::<char>::empty(),
{
    Ok(String::new())
}

impl Vertex {
    /// A vertex with no arc, no field bucket and an empty name.
    pub open spec fn is_blank(&self) -> bool {
        &&& self.arcs@.len() == 0
        &&& self.fields.usizes is None
        &&& self.fields.strings is None
        &&& self.id@ == Seq::<char>::empty()
    }

    /// Everything of `self` but the integer fields is as in `other`.
    pub open spec fn same_but_usizes(&self, other: &Vertex) -> bool {
        &&& self.arcs == other.arcs
        &&& self.id == other.id
        &&& self.fields.strings == other.fields.strings
    }

    /// Everything of `self` but the string fields is as in `other`.
    pub open spec fn same_but_strings(&self, other: &Vertex) -> bool {
        &&& self.arcs == other.arcs
        &&& self.id == other.id
        &&& self.fields.usizes == other.fields.usizes
    }

    pub fn blank() -> (r: Vertex)
        ensures
            r.is_blank(),
    {
        Vertex { arcs: Vec::new(), fields: FieldBuilder::new(), id: String::new() }
    }

    /// The name of the vertex.
    pub fn get_id(&self) -> (r: &str)
        ensures
            r@ == self.id@,
    {
        self.id.as_str()
    }

    /// Names the vertex after what `other_fn` produces.
    pub fn set_id_with<F: FnOnce() -> String>(&mut self, other_fn: F)
        requires
            other_fn.requires(()),
        ensures
            other_fn.ensures((), final(self).id),
            final(self).arcs == old(self).arcs,
            final(self).fields == old(self).fields,
    {
        self.id = other_fn();
    }

    /// Names the vertex `other`.
    pub fn set_id(&mut self, other: &str)
        ensures
            final(self).id@ == other@,
            final(self).arcs == old(self).arcs,
            final(self).fields == old(self).fields,
    {
        self.id = other.to_owned();
    }

    /// Makes sure the vertex holds at least `n` integer fields, asking
    /// `producer` for each missing one, and hands out the bucket of them.
    pub fn chfield_with_usize<F: Fn() -> Result<usize, FieldsExtError>>(
        &mut self,
        n: usize,
        producer: F,
    ) -> (r: Result<&mut Vec<usize>, FieldsExtError>)
        requires
            forall|| #[trigger] producer.requires(()),
        ensures
            final(self).same_but_usizes(old(self)),
            r matches Ok(v) ==> {
                &&& final(self).fields.usizes == Some(*final(v))
                &&& bucket_items(old(self).fields.usizes).len() <= v@.len()
                &&& v@.subrange(0, bucket_items(old(self).fields.usizes).len() as int)
                    == bucket_items(old(self).fields.usizes)
                &&& v@.len() == if bucket_items(old(self).fields.usizes).len() >= n {
                    bucket_items(old(self).fields.usizes).len()
                } else {
                    n as nat
                }
                &&& forall|i: int|
                    bucket_items(old(self).fields.usizes).len() <= i < v@.len()
                        ==> producer.ensures((), Ok::<usize, FieldsExtError>(#[trigger] v@[i]))
            },
            bucket_items(old(self).fields.usizes).len() >= n ==> (r matches Err(e) ==> e
                == FieldsExtError(crate::fields::AllocFailureKind::Bucket("usize")) && same_bucket(
                final(self).fields.usizes,
                old(self).fields.usizes,
            )),
            r matches Err(e) ==> {
                ||| (e == FieldsExtError(crate::fields::AllocFailureKind::Bucket("usize"))
                    && same_bucket(final(self).fields.usizes, old(self).fields.usizes))
                ||| (producer.ensures((), Err::<usize, FieldsExtError>(e))
                    && (old(self).fields.usizes is None ==> final(self).fields.usizes is None)
                    && (old(self).fields.usizes is Some ==> (final(self).fields.usizes matches Some(w)
                        && grown_by(bucket_items(old(self).fields.usizes), w@, producer))))
            },
    {
        fill_bucket(&mut self.fields.usizes, n, "usize", producer)
    }

    /// Makes sure the vertex holds at least `n` integer fields, new ones being
    /// zero, and hands out the bucket of them.
    pub fn chfield_usize(&mut self, n: usize) -> (r: Result<&mut Vec<usize>, FieldsExtError>)
        ensures
            final(self).same_but_usizes(old(self)),
            r matches Ok(v) ==> {
                &&& final(self).fields.usizes == Some(*final(v))
                &&& v@ == padded(bucket_items(old(self).fields.usizes), n as nat, 0usize)
            },
            r matches Err(e) ==> {
                &&& e == FieldsExtError(crate::fields::AllocFailureKind::Bucket("usize"))
                &&& same_bucket(final(self).fields.usizes, old(self).fields.usizes)
            },
    {
        let ghost start = bucket_items(self.fields.usizes);
        let r = fill_bucket(
            &mut self.fields.usizes,
            n,
            "usize",
            zero_field,
        );
        match r {
            Ok(v) => {
                assert(v@ =~= padded(start, n as nat, 0usize));
                Ok(v)
            },
            Err(e) => Err(e),
        }
    }

    /// Makes sure the vertex holds at least `n` string fields, asking
    /// `producer` for each missing one, and hands out the bucket of them.
    pub fn chfield_with_string<F: Fn() -> Result<String, FieldsExtError>>(
        &mut self,
        n: usize,
        producer: F,
    ) -> (r: Result<&mut Vec<String>, FieldsExtError>)
        requires
            forall|| #[trigger] producer.requires(()),
        ensures
            final(self).same_but_strings(old(self)),
            r matches Ok(v) ==> {
                &&& final(self).fields.strings == Some(*final(v))
                &&& bucket_items(old(self).fields.strings).len() <= v@.len()
                &&& v@.subrange(0, bucket_items(old(self).fields.strings).len() as int)
                    == bucket_items(old(self).fields.strings)
                &&& v@.len() == if bucket_items(old(self).fields.strings).len() >= n {
                    bucket_items(old(self).fields.strings).len()
                } else {
                    n as nat
                }
                &&& forall|i: int|
                    bucket_items(old(self).fields.strings).len() <= i < v@.len()
                        ==> producer.ensures((), Ok::<String, FieldsExtError>(#[trigger] v@[i]))
            },
            bucket_items(old(self).fields.strings).len() >= n ==> (r matches Err(e) ==> e
                == FieldsExtError(crate::fields::AllocFailureKind::Bucket("alloc::string::String"))
                && same_bucket(final(self).fields.strings, old(self).fields.strings)),
            r matches Err(e) ==> {
                ||| (e == FieldsExtError(
                    crate::fields::AllocFailureKind::Bucket("alloc::string::String"),
                ) && same_bucket(final(self).fields.strings, old(self).fields.strings))
                ||| (producer.ensures((), Err::<String, FieldsExtError>(e))
                    && (old(self).fields.strings is None ==> final(self).fields.strings is None)
                    && (old(self).fields.strings is Some ==> (final(self).fields.strings matches Some(w)
                        && grown_by(bucket_items(old(self).fields.strings), w@, producer))))
            },
    {
        fill_bucket(&mut self.fields.strings, n, "alloc::string::String", producer)
    }

    /// Makes sure the vertex holds at least `n` string fields, new ones being
    /// empty, and hands out the bucket of them.
    pub fn chfield_string(&mut self, n: usize) -> (r: Result<&mut Vec<String>, FieldsExtError>)
        ensures
            final(self).same_but_strings(old(self)),
            r matches Ok(v) ==> {
                &&& final(self).fields.strings == Some(*final(v))
                &&& string_views(v@) == padded(
                    string_views(bucket_items(old(self).fields.strings)),
                    n as nat,
                    Seq::<char>::empty(),
                )
            },
            r matches Err(e) ==> {
                &&& e == FieldsExtError(
                    crate::fields::AllocFailureKind::Bucket("alloc::string::String"),
                )
                &&& same_bucket(final(self).fields.strings, old(self).fields.strings)
            },
    {
        let ghost start = bucket_items(self.fields.strings);
        let r = fill_bucket(
            &mut self.fields.strings,
            n,
            "alloc::string::String",
            empty_string_field,
        );
        match r {
            Ok(v) => {
                assert(string_views(v@) =~= padded(
                    string_views(start),
                    n as nat,
                    Seq::<char>::empty(),
                )) by {
                    assert(v@.subrange(0, start.len() as int) == start);
                    assert forall|i: int| 0 <= i < v@.len() implies #[trigger] string_views(v@)[i]
                        == padded(string_views(start), n as nat, Seq::<char>::empty())[i] by {
                        if i < start.len() {
                            assert(v@[i] == v@.subrange(0, start.len() as int)[i]);
                        }
                    }
                }
                Ok(v)
            },
            Err(e) => Err(e),
        }
    }
}

} // verus!
