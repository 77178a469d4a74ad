//! The default graph backend: an arena of vertices whose arcs name their tips
//! by index.
use vstd::prelude::*;

pub mod arc;
pub mod iter;
pub mod iter_mut;
pub mod vertex;

use crate::backend::arc::Arc;
use crate::backend::iter::Iter;
use crate::backend::iter_mut::IterMut;
use crate::backend::vertex::Vertex;
use crate::board::{board_admissible, is_board, normalized_sizes, product, BoardError, GraphBuildErrorKind};
use crate::fields::FieldBuilder;
use crate::num::NonZeroIsize;
use crate::reserve::reserve_room;

verus! {

/// What failed to be allocated while a graph was being created.
#[derive(Debug)]
pub enum ArenaItemType {
    Vert,
    Arc,
}

/// Where an allocation failed while a graph was being created.
#[derive(Debug)]
pub enum AllocErrorSrc {
    ArenaAlloc,
    ItemInArena(usize, ArenaItemType),
}

/// Failure to create a graph.
#[derive(Debug)]
pub enum GraphCreationError {
    AllocError(AllocErrorSrc),
}

/// What was being done when an auxiliary allocation failed.
#[derive(Debug)]
pub enum AllocFailureSrc {
    ArcCreation,
}

/// Failure to add an arc.
#[derive(Debug)]
pub enum ArcAddError {
    AuxiliaryAlloc(AllocFailureSrc),
}

/// A graph: its vertices, in the order of their indices, auxiliary fields and a name.
#[derive(Debug)]
pub struct Graph {
    pub vertices: Vec<Vertex>,
    pub fields: FieldBuilder,
    pub id: String,
}

/// Room reserved for vertices beyond those a graph is created with.
pub const EXTRA_N: usize = 4;

/// The conversion of a vertex count into a `usize`, through `num_traits`.
///
/// `AsPrimitive::as_` from `usize` to `usize` is the cast `self as usize`,
/// so the contract states that it hands its argument back.
#[verifier::external_body]
pub(crate) fn as_usize(n: usize) -> (r: usize)
    ensures
        r == n,
{
    num_traits::AsPrimitive::<usize>::as_(n)
}

impl Graph {
    /// A graph of `n` vertices, none of them with an arc, a field or a name.
    pub open spec fn is_blank_of(&self, n: nat) -> bool {
        &&& self.vertices@.len() == n
        &&& forall|i: int| 0 <= i < n ==> (#[trigger] self.vertices@[i]).is_blank()
        &&& self.fields.usizes is None
        &&& self.fields.strings is None
        &&& self.id@ == Seq::<char>::empty()
    }

    /// Creates a graph of `n` vertices with no arcs.
    ///
    /// Room for `n + EXTRA_N` vertices is reserved first; where that count
    /// does not fit in a `usize`, or the reservation fails, the arena could
    /// not be allocated.
    pub fn new(n: usize) -> (r: Result<Graph, GraphCreationError>)
        ensures
            r matches Ok(g) ==> g.is_blank_of(n as nat),
            r matches Err(e) ==> e == GraphCreationError::AllocError(AllocErrorSrc::ArenaAlloc),
            n + EXTRA_N > usize::MAX ==> r is Err,
            (n + EXTRA_N) * vstd::layout::size_of::<Vertex>() > isize::MAX ==> r is Err,
    {
        let n = as_usize(n);
        let capacity = match n.checked_add(EXTRA_N) {
            Some(c) => c,
            None => {
                return Err(GraphCreationError::AllocError(AllocErrorSrc::ArenaAlloc));
            },
        };
        let mut vertices: Vec<Vertex> = Vec::new();
        if reserve_room(&mut vertices, capacity).is_err() {
            return Err(GraphCreationError::AllocError(AllocErrorSrc::ArenaAlloc));
        }
        while vertices.len() < n
            invariant
                vertices@.len() <= n,
                forall|i: int| 0 <= i < vertices@.len() ==> (#[trigger] vertices@[i]).is_blank(),
            decreases n - vertices.len(),
        {
            vertices.push(Vertex::blank());
        }
        Ok(Graph { vertices, fields: FieldBuilder::new(), id: String::new() })
    }

    /// Generates the graph `board(n1, n2, n3, n4, piece, wrap, directed)`
    /// of the Stanford GraphBase: one vertex per cell of a board whose
    /// component sizes `normalized_sizes` lays out, named after its
    /// coordinates, with the arcs of the moves of `piece`.
    pub fn board(
        n1: isize,
        n2: isize,
        n3: isize,
        n4: isize,
        piece: NonZeroIsize,
        wrap: isize,
        directed: bool,
    ) -> (r: Result<Self, BoardError>)
        requires
            board_admissible(n1, n2, n3, n4, piece@, wrap),
        ensures
            r matches Ok(g) ==> is_board(g, n1, n2, n3, n4, piece@, wrap, directed),
            r matches Err(BoardError::GraphBuild(GraphBuildErrorKind::ComponentSizesOutOfBounds))
                ==> product(normalized_sizes(n1, n2, n3, n4)) > isize::MAX,
            product(normalized_sizes(n1, n2, n3, n4)) > isize::MAX ==> r is Err,
            normalized_sizes(n1, n2, n3, n4).len() * vstd::layout::size_of::<usize>() > isize::MAX
                ==> r matches Err(BoardError::Normalization),
    {
        crate::board::board(n1, n2, n3, n4, piece, wrap, directed)
    }

    /// The number of vertices.
    pub fn order(&self) -> (r: usize)
        ensures
            r == self.vertices@.len(),
    {
        self.vertices.len()
    }

    /// The vertex of index `i`.
    pub fn vertex(&self, i: usize) -> (r: &Vertex)
        requires
            i < self.vertices@.len(),
        ensures
            *r == self.vertices@[i as int],
    {
        &self.vertices[i]
    }

    /// The vertex of index `i`, to be changed.
    pub fn vertex_mut(&mut self, i: usize) -> (r: &mut Vertex)
        requires
            i < old(self).vertices@.len(),
        ensures
            *r == old(self).vertices@[i as int],
            final(self).vertices@ == old(self).vertices@.update(i as int, *final(r)),
            final(self).fields == old(self).fields,
            final(self).id == old(self).id,
    {
        &mut self.vertices[i]
    }

    /// A cursor over the vertices, in index order.
    pub fn iter(&self) -> (r: Iter<'_>)
        ensures
            r.len == self.vertices@.len(),
            r.idx is None,
            *r.graph == *self,
    {
        Iter { len: self.vertices.len(), idx: None, graph: self }
    }

    /// A cursor over the vertices, in index order, that hands each out to be changed.
    pub fn iter_mut(&mut self) -> (r: IterMut<'_>)
        ensures
            r.len == old(self).vertices@.len(),
            r.idx is None,
            *r.graph == *old(self),
            *final(self) == *final(r.graph),
    {
        let len = self.vertices.len();
        IterMut { len, idx: None, graph: self }
    }

    /// The name of the graph.
    pub fn get_id(&self) -> (r: &str)
        ensures
            r@ == self.id@,
    {
        self.id.as_str()
    }

    /// Names the graph after what `other_fn` produces.
    pub fn set_id_with<F: FnOnce() -> String>(&mut self, other_fn: F)
        requires
            other_fn.requires(()),
        ensures
            other_fn.ensures((), final(self).id),
            final(self).vertices == old(self).vertices,
            final(self).fields == old(self).fields,
    {
        self.id = other_fn();
    }

    /// Names the graph `other`.
    pub fn set_id(&mut self, other: &str)
        ensures
            final(self).id@ == other@,
            final(self).vertices == old(self).vertices,
            final(self).fields == old(self).fields,
    {
        self.id = other.to_owned();
    }

    /// Adds an arc from the vertex of index `src` to that of index `dst`.
    ///
    /// Room for one more arc of `src` is reserved first; failing that, the
    /// graph is left as it was.
    pub fn new_arc(&mut self, src: usize, dst: usize) -> (r: Result<(), ArcAddError>)
        requires
            src < old(self).vertices@.len(),
            dst < old(self).vertices@.len(),
        ensures
            final(self).fields == old(self).fields,
            final(self).id == old(self).id,
            r is Ok ==> final(self).arc_added(*old(self), src, dst),
            r matches Err(e) ==> {
                &&& e == ArcAddError::AuxiliaryAlloc(AllocFailureSrc::ArcCreation)
                &&& final(self).same_arcs(*old(self))
            },
    {
        let vertex = &mut self.vertices[src];
        if vertex.arcs.try_reserve(1).is_err() {
            return Err(ArcAddError::AuxiliaryAlloc(AllocFailureSrc::ArcCreation));
        }
        let ghost before = vertex.arcs@;
        vertex.arcs.push(Arc::new_to(dst));
        assert(vertex.arcs@.drop_last() =~= before);
        Ok(())
    }

    /// Adds an arc from `one` to `other`, then one from `other` to `one`.
    pub fn new_edge(&mut self, one: usize, other: usize) -> (r: Result<(), ArcAddError>)
        requires
            one < old(self).vertices@.len(),
            other < old(self).vertices@.len(),
        ensures
            final(self).fields == old(self).fields,
            final(self).id == old(self).id,
            r is Ok ==> exists|mid: Graph|
                mid.arc_added(*old(self), one, other) && final(self).arc_added(mid, other, one),
            r matches Err(e) ==> e == ArcAddError::AuxiliaryAlloc(AllocFailureSrc::ArcCreation),
            r is Err ==> final(self).same_arcs(*old(self)) || exists|mid: Graph|
                mid.arc_added(*old(self), one, other) && final(self).same_arcs(mid),
    {
        self.new_arc(one, other)?;
        let ghost mid = *self;
        let r = self.new_arc(other, one);
        proof {
            assert(mid.arc_added(*old(self), one, other));
            if r is Err {
                assert(self.same_arcs(mid));
            }
        }
        r
    }

    /// `self` is `before` with one fresh arc from `src` to `dst` appended to
    /// the arcs of `src`.
    pub open spec fn arc_added(&self, before: Graph, src: usize, dst: usize) -> bool {
        &&& self.vertices@.len() == before.vertices@.len()
        &&& src < before.vertices@.len()
        &&& forall|i: int|
            0 <= i < self.vertices@.len() && i != src ==> #[trigger] self.vertices@[i]
                == before.vertices@[i]
        &&& self.vertices@[src as int].id == before.vertices@[src as int].id
        &&& self.vertices@[src as int].fields == before.vertices@[src as int].fields
        &&& self.vertices@[src as int].arcs@.len() == before.vertices@[src as int].arcs@.len() + 1
        &&& self.vertices@[src as int].arcs@.drop_last() == before.vertices@[src as int].arcs@
        &&& self.vertices@[src as int].arcs@.last().is_fresh_to(dst)
    }

    /// `self` has the vertices of `before`, arc for arc.
    pub open spec fn same_arcs(&self, before: Graph) -> bool {
        &&& self.vertices@.len() == before.vertices@.len()
        &&& forall|i: int|
            0 <= i < self.vertices@.len() ==> {
                &&& (#[trigger] self.vertices@[i]).id == before.vertices@[i].id
                &&& self.vertices@[i].fields == before.vertices@[i].fields
                &&& self.vertices@[i].arcs@ == before.vertices@[i].arcs@
            }
    }
}

} // verus!
