//! A shared cursor over the vertices of a graph.
use vstd::prelude::*;

use crate::backend::iter_mut::exclusive_step;
use crate::backend::vertex::Vertex;
use crate::backend::Graph;

verus! {

/// A cursor over the vertices of `graph`, started with `len` vertices.
pub struct Iter<'a> {
    pub len: usize,
    pub idx: Option<usize>,
    pub graph: &'a Graph,
}

impl<'a> Iter<'a> {
    /// The index the cursor stands on after one more step.
    pub open spec fn next_idx(&self) -> Option<usize> {
        exclusive_step(self.idx, self.len)
    }

    /// One more step moves the cursor onto the index of a vertex of the graph.
    pub open spec fn hands_out(&self) -> bool {
        &&& self.next_idx() != self.idx
        &&& self.next_idx() is Some
        &&& self.next_idx().unwrap() < self.graph.vertices@.len()
    }

    /// The next vertex.
    ///
    /// The cursor hands out the vertices of indices `0` to `len - 1` in turn,
    /// then nothing.
    pub fn next(&mut self) -> (r: Option<&'a Vertex>)
        requires
            old(self).idx matches Some(i) ==> i < old(self).len,
        ensures
            final(self).len == old(self).len,
            final(self).graph == old(self).graph,
            final(self).idx == old(self).next_idx(),
            old(self).hands_out() ==> r == Some(&old(self).graph.vertices@[old(self).next_idx().unwrap() as int]),
            !old(self).hands_out() ==> r is None,
    {
        match self.idx {
            None => {
                if self.len == 0 {
                    return None;
                }
                self.idx = Some(0);
            },
            Some(idx) => {
                if idx == self.len - 1 {
                    return None;
                }
                self.idx = Some(idx + 1);
            },
        }
        let idx = match self.idx {
            Some(i) => i,
            None => 0,
        };
        if idx < self.graph.vertices.len() {
            Some(&self.graph.vertices[idx])
        } else {
            None
        }
    }

    /// The number of vertices the cursor hands out before it first hands
    /// out nothing.
    ///
    /// A cursor that has not stepped yet hands out every vertex; one that
    /// stands on index `i` hands out the vertices after it.
    pub fn count(self) -> (r: usize)
        requires
            self.len == self.graph.vertices@.len(),
            self.idx matches Some(i) ==> i < self.len,
        ensures
            r == match self.idx {
                None => self.len,
                Some(i) => (self.len - 1 - i) as usize,
            },
    {
        let mut it = self;
        let ghost start = it.idx;
        let mut n: usize = 0;
        loop
            invariant
                it.len == it.graph.vertices@.len(),
                it.graph == self.graph,
                it.len == self.len,
                it.idx matches Some(i) ==> i < it.len,
                start == self.idx,
                match start {
                    None => (it.idx is None && n == 0) || (it.idx matches Some(i) && n == i + 1),
                    Some(i0) => it.idx matches Some(i) && i0 <= i && n == i - i0,
                },
            decreases match it.idx {
                None => it.len as int + 1,
                Some(i) => it.len as int - i as int,
            },
        {
            match it.next() {
                Some(_) => {
                    n = n + 1;
                },
                None => {
                    return n;
                },
            }
        }
    }
}

} // verus!
