//! An exclusive cursor over the vertices of a graph.
use vstd::prelude::*;

use crate::backend::vertex::Vertex;
use crate::backend::Graph;

verus! {

/// One step of an exclusive cursor over `len` vertices that stands on `idx`.
pub open spec fn exclusive_step(idx: Option<usize>, len: usize) -> Option<usize> {
    match idx {
        None => if len == 0 {
            None
        } else {
            Some(0usize)
        },
        Some(i) => if i == len - 1 {
            Some(i)
        } else {
            Some((i + 1) as usize)
        },
    }
}

/// Where an exclusive cursor over `len` vertices stands after `k` steps from
/// its start.
pub open spec fn exclusive_after(len: usize, k: nat) -> Option<usize>
    decreases k,
{
    if k == 0 {
        None
    } else {
        exclusive_step(exclusive_after(len, (k - 1) as nat), len)
    }
}

/// An exclusive cursor started on `len` vertices moves, with its `k`-th step,
/// onto the vertex of index `k - 1` for `k` up to `len`, and does not move
/// afterwards: it hands out every vertex once, in index order.
pub proof fn lemma_exclusive_cursor_visits(len: usize, k: nat)
    ensures
        len == 0 ==> exclusive_after(len, k) is None,
        len > 0 && 1 <= k <= len ==> exclusive_after(len, k) == Some((k - 1) as usize),
        len > 0 && k > len ==> exclusive_after(len, k) == Some((len - 1) as usize),
        k >= 1 ==> (exclusive_after(len, k) != exclusive_after(len, (k - 1) as nat) <==> k <= len),
    decreases k,
{
    if k > 0 {
        lemma_exclusive_cursor_visits(len, (k - 1) as nat);
        if k >= 2 {
            lemma_exclusive_cursor_visits(len, (k - 2) as nat);
        }
    }
}

/// A cursor over the vertices of `graph`, started with `len` vertices, that
/// hands each out to be changed.
pub struct IterMut<'a> {
    pub len: usize,
    pub idx: Option<usize>,
    pub graph: &'a mut Graph,
}

impl<'a> IterMut<'a> {
    /// The index the cursor stands on after one more step.
    pub open spec fn next_idx(&self) -> Option<usize> {
        exclusive_step(self.idx, self.len)
    }

    /// One more step moves the cursor onto the index of a vertex of the graph.
    pub open spec fn hands_out(&self) -> bool {
        &&& self.next_idx() != self.idx
        &&& self.next_idx() is Some
        &&& self.next_idx().unwrap() < self.graph.vertices@.len()
    }

    /// The next vertex, to be changed.
    ///
    /// The cursor hands out the vertices of indices `0` to `len - 1` in turn,
    /// then nothing.
    pub fn next(&mut self) -> (r: Option<&mut Vertex>)
        requires
            old(self).idx matches Some(i) ==> i < old(self).len,
        ensures
            final(self).len == old(self).len,
            final(self).idx == old(self).next_idx(),
            old(self).hands_out() ==> (r matches Some(v) && {
                &&& *v == old(self).graph.vertices@[old(self).next_idx().unwrap() as int]
                &&& final(self).graph.vertices@ == old(self).graph.vertices@.update(
                    old(self).next_idx().unwrap() as int,
                    *final(v),
                )
                &&& final(self).graph.fields == old(self).graph.fields
                &&& final(self).graph.id == old(self).graph.id
            }),
            !old(self).hands_out() ==> (r is None && *final(self).graph == *old(self).graph),
    {
        match self.idx {
            None => {
                if self.len == 0 {
                    return None;
                }
                self.idx = Some(0);
            },
            Some(idx) => {
                if idx == self.len - 1 {
                    return None;
                }
                self.idx = Some(idx + 1);
            },
        }
        let idx = match self.idx {
            Some(i) => i,
            None => 0,
        };
        if idx < self.graph.vertices.len() {
            Some(self.graph.vertex_mut(idx))
        } else {
            None
        }
    }
}

} // verus!
