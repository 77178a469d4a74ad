//! The moves of a piece on a board: from one cell, the arcs to the cells it
//! reaches by a given motion, with wrapping coordinates.
use vstd::prelude::*;

use crate::backend::vertex::Vertex;
use crate::backend::{AllocFailureSrc, ArcAddError, Graph};
use crate::board::{all_positive, isize_ints, lands_on, lemma_product_prefix_monotone, product, MoveLaw};

verus! {

/// Failure to add the moves of a piece.
#[derive(Debug)]
pub enum GenMovesError {
    ArcAddition(ArcAddError),
    AuxiliaryAlloc,
}

/// The coordinate `c` of size `m` on the board: a coordinate from zero to
/// below `m` stays; one off the board is brought back to `c` modulo `m` where
/// the coordinate wraps around, and is lost, which ends the moves, where it
/// does not.
pub open spec fn wrapped_coordinate(c: isize, m: usize, w: bool) -> Option<isize> {
    if 0 <= c < m {
        Some(c)
    } else if w {
        Some((c as int % m as int) as isize)
    } else {
        None
    }
}

/// The number of components that take part in the wrapping.
pub open spec fn wrapped_len(state: Seq<isize>, ranges: Seq<usize>, wrap: Seq<bool>) -> nat {
    let a = if state.len() <= ranges.len() {
        state.len()
    } else {
        ranges.len()
    };
    if a <= wrap.len() {
        a
    } else {
        wrap.len()
    }
}

/// The state after the first `k` components were wrapped, and whether all
/// of them could be.
pub open spec fn wrapped_prefix(
    state: Seq<isize>,
    ranges: Seq<usize>,
    wrap: Seq<bool>,
    k: nat,
) -> (Seq<isize>, bool)
    decreases k,
{
    if k == 0 {
        (state, true)
    } else {
        let (s, all) = wrapped_prefix(state, ranges, wrap, (k - 1) as nat);
        if !all {
            (s, false)
        } else {
            match wrapped_coordinate(s[k - 1], ranges[k - 1], wrap[k - 1]) {
                Some(c) => (s.update(k - 1, c), true),
                None => (s, false),
            }
        }
    }
}

/// The state after wrapping, and whether every component could be wrapped.
pub open spec fn wrapped_state(state: Seq<isize>, ranges: Seq<usize>, wrap: Seq<bool>) -> (
    Seq<isize>,
    bool,
) {
    wrapped_prefix(state, ranges, wrap, wrapped_len(state, ranges, wrap))
}

/// The number of components that take part in the vertex index.
pub open spec fn index_len(state: Seq<isize>, ranges: Seq<usize>) -> nat {
    if state.len() <= ranges.len() {
        state.len()
    } else {
        ranges.len()
    }
}

/// The vertex index of the first `k` coordinates, read as a number whose
/// digit `j` is in base `ranges[j]`.
pub open spec fn index_prefix(state: Seq<isize>, ranges: Seq<usize>, k: nat) -> int
    decreases k,
{
    if k <= 1 {
        state[0] as int
    } else {
        ranges[k - 1] as int * index_prefix(state, ranges, (k - 1) as nat) + state[k - 1] as int
    }
}

/// Every partial vertex index, and every product it is computed from, fits
/// in an `isize`.
pub open spec fn index_fits(state: Seq<isize>, ranges: Seq<usize>) -> bool {
    &&& forall|k: nat|
        1 <= k <= index_len(state, ranges) ==> isize::MIN <= #[trigger] index_prefix(
            state,
            ranges,
            k,
        ) <= isize::MAX
    &&& forall|k: nat|
        2 <= k <= index_len(state, ranges) ==> isize::MIN <= ranges[k - 1] as int
            * #[trigger] index_prefix(state, ranges, (k - 1) as nat) <= isize::MAX
}

/// The index of the vertex with the given coordinates, as a `usize`.
pub open spec fn vertex_index(state: Seq<isize>, ranges: Seq<usize>) -> usize {
    let k = if index_len(state, ranges) >= 1 {
        index_len(state, ranges)
    } else {
        1
    };
    index_prefix(state, ranges, k) as usize
}

/// The state moved on by `change`, component by component.
pub open spec fn moved_state(state: Seq<isize>, change: Seq<isize>) -> Seq<isize> {
    Seq::new(
        state.len(),
        |j: int|
            if j < change.len() {
                (state[j] + change[j]) as isize
            } else {
                state[j]
            },
    )
}

/// Moving the state on by `change` stays within `isize`.
pub open spec fn move_fits(state: Seq<isize>, change: Seq<isize>) -> bool {
    forall|j: int|
        0 <= j < state.len() && j < change.len() ==> isize::MIN <= #[trigger] state[j]
            + change[j] <= isize::MAX
}

/// The rules of a piece's moves from one vertex.
pub struct MoveRules {
    pub ranges: Seq<usize>,
    pub wrap: Seq<bool>,
    pub prior: Seq<isize>,
    pub change: Seq<isize>,
    pub piece: isize,
}

impl MoveRules {
    /// A round from `state` adds an arc: every coordinate wrapped, and, for a
    /// riding piece, the wrapped state differs from the prior one.
    pub open spec fn adds_arc(self, state: Seq<isize>) -> bool {
        let (w, all) = wrapped_state(state, self.ranges, self.wrap);
        all && !(self.piece < 0 && w == self.prior)
    }

    /// The tip of the arc a round from `state` adds.
    pub open spec fn tip(self, state: Seq<isize>) -> usize {
        vertex_index(wrapped_state(state, self.ranges, self.wrap).0, self.ranges)
    }

    /// After a round from `state`, another one follows: an arc was added and
    /// the piece rides on (it is not positive).
    pub open spec fn goes_on(self, state: Seq<isize>) -> bool {
        self.adds_arc(state) && self.piece <= 0
    }

    /// The state the next round starts from.
    pub open spec fn next(self, state: Seq<isize>) -> Seq<isize> {
        moved_state(wrapped_state(state, self.ranges, self.wrap).0, self.change)
    }

    /// The state at the start of round `t`.
    pub open spec fn state_at(self, s0: Seq<isize>, t: nat) -> Seq<isize>
        decreases t,
    {
        if t == 0 {
            s0
        } else {
            self.next(self.state_at(s0, (t - 1) as nat))
        }
    }

    /// Every round before round `t` was followed by another.
    pub open spec fn reaches(self, s0: Seq<isize>, t: nat) -> bool {
        forall|j: nat| j < t ==> #[trigger] self.goes_on(self.state_at(s0, j))
    }

    /// The first round from `t` on after which none follows, or `bound`.
    pub open spec fn stop_from(self, s0: Seq<isize>, t: nat, bound: nat) -> nat
        decreases bound - t,
    {
        if t >= bound {
            bound
        } else if !self.goes_on(self.state_at(s0, t)) {
            t
        } else {
            self.stop_from(s0, t + 1, bound)
        }
    }

    /// The last round: the first after which none follows, at most `usize::MAX`.
    pub open spec fn last_round(self, s0: Seq<isize>) -> nat {
        self.stop_from(s0, 0, usize::MAX as nat)
    }

    /// The number of arcs the moves from `s0` add.
    pub open spec fn arc_count(self, s0: Seq<isize>) -> nat {
        let t = self.last_round(s0);
        if t < usize::MAX && self.adds_arc(self.state_at(s0, t)) {
            t + 1
        } else {
            t
        }
    }

    /// The tips of the arcs the moves from `s0` add, in order.
    pub open spec fn tips(self, s0: Seq<isize>) -> Seq<usize> {
        Seq::new(self.arc_count(s0), |t: int| self.tip(self.state_at(s0, t as nat)))
    }

    /// The state the moves from `s0` leave behind.
    pub open spec fn final_state(self, s0: Seq<isize>) -> Seq<isize> {
        let t = self.last_round(s0);
        if t < usize::MAX {
            wrapped_state(self.state_at(s0, t), self.ranges, self.wrap).0
        } else {
            self.state_at(s0, t)
        }
    }

    /// A round from `state` can be played on a graph of `order` vertices:
    /// where it adds an arc, there is a coordinate, the vertex index fits and
    /// names a vertex; where another round follows, the move fits.
    pub open spec fn round_defined(self, state: Seq<isize>, order: nat) -> bool {
        let w = wrapped_state(state, self.ranges, self.wrap).0;
        &&& self.adds_arc(state) ==> {
            &&& w.len() >= 1
            &&& index_fits(w, self.ranges)
            &&& (vertex_index(w, self.ranges) as int) < order
        }
        &&& self.goes_on(state) ==> move_fits(w, self.change)
    }

    /// Every round that is played from `s0` can be.
    pub open spec fn defined_from(self, s0: Seq<isize>, order: nat) -> bool {
        forall|t: nat|
            t < usize::MAX && self.reaches(s0, t) ==> self.round_defined(
                #[trigger] self.state_at(s0, t),
                order,
            )
    }
}

/// `after` is the vertex `before` with fresh arcs to each of `tips`, in
/// order, appended to its arcs, and nothing else changed.
pub open spec fn vertex_extended(after: Vertex, before: Vertex, tips: Seq<usize>) -> bool {
    &&& after.id == before.id
    &&& after.fields == before.fields
    &&& after.arcs@.len() == before.arcs@.len() + tips.len()
    &&& after.arcs@.subrange(0, before.arcs@.len() as int) == before.arcs@
    &&& forall|j: int|
        0 <= j < tips.len() ==> (#[trigger] after.arcs@[before.arcs@.len() + j]).is_fresh_to(
            tips[j],
        )
}

/// `after` is the graph `before` with fresh arcs to each of `extra(i)`, in
/// order, appended to the arcs of each vertex `i`, and nothing else changed.
pub open spec fn arcs_extended(after: Graph, before: Graph, extra: spec_fn(int) -> Seq<usize>) -> bool {
    &&& after.vertices@.len() == before.vertices@.len()
    &&& after.fields == before.fields
    &&& after.id == before.id
    &&& forall|i: int|
        0 <= i < after.vertices@.len() ==> vertex_extended(
            #[trigger] after.vertices@[i],
            before.vertices@[i],
            extra(i),
        )
}

/// An arc is fresh and goes to one of `order` vertices.
pub open spec fn fresh_within(a: crate::backend::arc::Arc, order: nat) -> bool {
    &&& a.tip is Some
    &&& a.tip.unwrap() < order
    &&& a.is_fresh_to(a.tip.unwrap())
}

/// `after` is the graph `before` with fresh arcs appended to its vertices,
/// each from a vertex `i` to one of its vertices `v` that `ok` allows, and
/// nothing else changed.
pub open spec fn arcs_grown(after: Graph, before: Graph, ok: MoveLaw) -> bool {
    &&& after.vertices@.len() == before.vertices@.len()
    &&& after.fields == before.fields
    &&& after.id == before.id
    &&& forall|i: int|
        0 <= i < after.vertices@.len() ==> {
            &&& (#[trigger] after.vertices@[i]).id == before.vertices@[i].id
            &&& after.vertices@[i].fields == before.vertices@[i].fields
            &&& after.vertices@[i].arcs@.len() >= before.vertices@[i].arcs@.len()
            &&& after.vertices@[i].arcs@.subrange(0, before.vertices@[i].arcs@.len() as int)
                == before.vertices@[i].arcs@
            &&& forall|j: int|
                before.vertices@[i].arcs@.len() <= j < after.vertices@[i].arcs@.len() ==> {
                    &&& fresh_within(#[trigger] after.vertices@[i].arcs@[j], before.vertices@.len())
                    &&& ok.allows(i, after.vertices@[i].arcs@[j].tip.unwrap() as int)
                }
        }
}

/// The tips of the arcs that one move from `src` to `dst` adds to the vertex
/// `i`: `dst` at `src`, and for an undirected move also `src` at `dst`.
pub open spec fn move_tips(src: usize, dst: usize, directed: bool, i: int) -> Seq<usize> {
    (if i == src {
        seq![dst]
    } else {
        Seq::empty()
    }) + (if !directed && i == dst {
        seq![src]
    } else {
        Seq::empty()
    })
}

/// The tips of the arcs that the moves from `src` to each of `tips`, in
/// order, add to the vertex `i`.
pub open spec fn moves_tips(src: usize, tips: Seq<usize>, directed: bool, i: int) -> Seq<usize>
    decreases tips.len(),
{
    if tips.len() == 0 {
        Seq::empty()
    } else {
        moves_tips(src, tips.drop_last(), directed, i) + move_tips(src, tips.last(), directed, i)
    }
}

/// The tips of the arcs that a move from `src` to `dst` that failed after
/// its first arc (`first`) or before it added to the vertex `i`.
pub open spec fn partial_move_tips(src: usize, dst: usize, first: bool, i: int) -> Seq<usize> {
    if first && i == src {
        seq![dst]
    } else {
        Seq::empty()
    }
}

/// Chained extensions of a vertex append the tips of both, in order.
pub proof fn lemma_vertex_extended_trans(
    a: Vertex,
    b: Vertex,
    c: Vertex,
    t1: Seq<usize>,
    t2: Seq<usize>,
)
    requires
        vertex_extended(b, a, t1),
        vertex_extended(c, b, t2),
    ensures
        vertex_extended(c, a, t1 + t2),
{
    let la = a.arcs@.len() as int;
    let lb = b.arcs@.len() as int;
    assert forall|j: int| 0 <= j < la implies c.arcs@[j] == a.arcs@[j] by {
        assert(c.arcs@[j] == c.arcs@.subrange(0, lb)[j]);
        assert(b.arcs@[j] == b.arcs@.subrange(0, la)[j]);
    }
    assert(c.arcs@.subrange(0, la) =~= a.arcs@);
    assert forall|j: int| 0 <= j < (t1 + t2).len() implies (#[trigger] c.arcs@[la + j]).is_fresh_to(
        (t1 + t2)[j],
    ) by {
        if j < t1.len() {
            assert(c.arcs@[la + j] == c.arcs@.subrange(0, lb)[la + j]);
            assert(b.arcs@[la + j].is_fresh_to(t1[j]));
        } else {
            assert(c.arcs@[lb + (j - t1.len())].is_fresh_to(t2[j - t1.len()]));
        }
    }
}

/// Chained extensions of a graph append, at each vertex, the tips of both.
pub proof fn lemma_arcs_extended_trans(
    g0: Graph,
    g1: Graph,
    g2: Graph,
    f1: spec_fn(int) -> Seq<usize>,
    f2: spec_fn(int) -> Seq<usize>,
    f: spec_fn(int) -> Seq<usize>,
)
    requires
        arcs_extended(g1, g0, f1),
        arcs_extended(g2, g1, f2),
        forall|i: int| 0 <= i < g0.vertices@.len() ==> #[trigger] f(i) == f1(i) + f2(i),
    ensures
        arcs_extended(g2, g0, f),
{
    assert forall|i: int| 0 <= i < g2.vertices@.len() implies vertex_extended(
        #[trigger] g2.vertices@[i],
        g0.vertices@[i],
        f(i),
    ) by {
        assert(vertex_extended(g1.vertices@[i], g0.vertices@[i], f1(i)));
        assert(vertex_extended(g2.vertices@[i], g1.vertices@[i], f2(i)));
        lemma_vertex_extended_trans(g0.vertices@[i], g1.vertices@[i], g2.vertices@[i], f1(i), f2(i));
    }
}

/// An extension is one by any tips that agree at every vertex.
pub proof fn lemma_arcs_extended_congruent(
    after: Graph,
    before: Graph,
    f: spec_fn(int) -> Seq<usize>,
    g: spec_fn(int) -> Seq<usize>,
)
    requires
        arcs_extended(after, before, f),
        forall|i: int| 0 <= i < before.vertices@.len() ==> #[trigger] g(i) == f(i),
    ensures
        arcs_extended(after, before, g),
{
    assert forall|i: int| 0 <= i < after.vertices@.len() implies vertex_extended(
        #[trigger] after.vertices@[i],
        before.vertices@[i],
        g(i),
    ) by {
        assert(vertex_extended(after.vertices@[i], before.vertices@[i], f(i)));
    }
}

/// A graph is its own extension by nothing.
pub proof fn lemma_arcs_extended_refl(g: Graph, f: spec_fn(int) -> Seq<usize>)
    requires
        forall|i: int| 0 <= i < g.vertices@.len() ==> #[trigger] f(i) == Seq::<usize>::empty(),
    ensures
        arcs_extended(g, g, f),
{
    assert forall|i: int| 0 <= i < g.vertices@.len() implies vertex_extended(
        #[trigger] g.vertices@[i],
        g.vertices@[i],
        f(i),
    ) by {
        assert(g.vertices@[i].arcs@.subrange(0, g.vertices@[i].arcs@.len() as int)
            =~= g.vertices@[i].arcs@);
    }
}

/// One arc added from `src` to `dst` extends the graph by `dst` at `src`.
pub proof fn lemma_arc_added_extends(g1: Graph, g2: Graph, src: usize, dst: usize, f: spec_fn(int) -> Seq<usize>)
    requires
        g2.arc_added(g1, src, dst),
        g2.fields == g1.fields,
        g2.id == g1.id,
        forall|i: int|
            0 <= i < g1.vertices@.len() ==> #[trigger] f(i) == if i == src {
                seq![dst]
            } else {
                Seq::<usize>::empty()
            },
    ensures
        arcs_extended(g2, g1, f),
{
    assert forall|i: int| 0 <= i < g2.vertices@.len() implies vertex_extended(
        #[trigger] g2.vertices@[i],
        g1.vertices@[i],
        f(i),
    ) by {
        if i == src {
            let a = g2.vertices@[i].arcs@;
            let b = g1.vertices@[i].arcs@;
            assert(a.drop_last() == b);
            assert(a.subrange(0, b.len() as int) =~= b);
            assert(a[b.len() as int] == a.last());
        } else {
            assert(g2.vertices@[i].arcs@.subrange(0, g2.vertices@[i].arcs@.len() as int)
                =~= g2.vertices@[i].arcs@);
        }
    }
}

/// An extension whose tips all name vertices that `ok` allows grows the graph.
pub proof fn lemma_arcs_extended_grown(
    after: Graph,
    before: Graph,
    f: spec_fn(int) -> Seq<usize>,
    ok: MoveLaw,
)
    requires
        arcs_extended(after, before, f),
        forall|i: int, j: int|
            0 <= i < before.vertices@.len() && 0 <= j < f(i).len() ==> #[trigger] f(i)[j]
                < before.vertices@.len() && ok.allows(i, f(i)[j] as int),
    ensures
        arcs_grown(after, before, ok),
{
    assert forall|i: int| 0 <= i < after.vertices@.len() implies {
        &&& (#[trigger] after.vertices@[i]).id == before.vertices@[i].id
        &&& after.vertices@[i].fields == before.vertices@[i].fields
        &&& after.vertices@[i].arcs@.len() >= before.vertices@[i].arcs@.len()
        &&& after.vertices@[i].arcs@.subrange(0, before.vertices@[i].arcs@.len() as int)
            == before.vertices@[i].arcs@
        &&& forall|j: int|
            before.vertices@[i].arcs@.len() <= j < after.vertices@[i].arcs@.len() ==> {
                &&& fresh_within(#[trigger] after.vertices@[i].arcs@[j], before.vertices@.len())
                &&& ok.allows(i, after.vertices@[i].arcs@[j].tip.unwrap() as int)
            }
    } by {
        assert(vertex_extended(after.vertices@[i], before.vertices@[i], f(i)));
        let lb = before.vertices@[i].arcs@.len() as int;
        assert forall|j: int| lb <= j < after.vertices@[i].arcs@.len() implies {
            &&& fresh_within(#[trigger] after.vertices@[i].arcs@[j], before.vertices@.len())
            &&& ok.allows(i, after.vertices@[i].arcs@[j].tip.unwrap() as int)
        } by {
            assert(after.vertices@[i].arcs@[lb + (j - lb)].is_fresh_to(f(i)[j - lb]));
            assert(f(i)[j - lb] < before.vertices@.len());
        }
    }
}

/// Growing a graph twice grows it.
pub proof fn lemma_arcs_grown_trans(g0: Graph, g1: Graph, g2: Graph, ok: MoveLaw)
    requires
        arcs_grown(g1, g0, ok),
        arcs_grown(g2, g1, ok),
    ensures
        arcs_grown(g2, g0, ok),
{
    assert forall|i: int| 0 <= i < g2.vertices@.len() implies {
        &&& (#[trigger] g2.vertices@[i]).id == g0.vertices@[i].id
        &&& g2.vertices@[i].fields == g0.vertices@[i].fields
        &&& g2.vertices@[i].arcs@.len() >= g0.vertices@[i].arcs@.len()
        &&& g2.vertices@[i].arcs@.subrange(0, g0.vertices@[i].arcs@.len() as int)
            == g0.vertices@[i].arcs@
        &&& forall|j: int|
            g0.vertices@[i].arcs@.len() <= j < g2.vertices@[i].arcs@.len() ==> {
                &&& fresh_within(#[trigger] g2.vertices@[i].arcs@[j], g0.vertices@.len())
                &&& ok.allows(i, g2.vertices@[i].arcs@[j].tip.unwrap() as int)
            }
    } by {
        let a = g0.vertices@[i].arcs@;
        let b = g1.vertices@[i].arcs@;
        let c = g2.vertices@[i].arcs@;
        assert(g1.vertices@[i].arcs@.len() >= a.len());
        assert forall|j: int| 0 <= j < a.len() implies c[j] == a[j] by {
            assert(c[j] == c.subrange(0, b.len() as int)[j]);
            assert(b[j] == b.subrange(0, a.len() as int)[j]);
        }
        assert(c.subrange(0, a.len() as int) =~= a);
        assert forall|j: int| a.len() <= j < c.len() implies {
            &&& fresh_within(#[trigger] g2.vertices@[i].arcs@[j], g0.vertices@.len())
            &&& ok.allows(i, g2.vertices@[i].arcs@[j].tip.unwrap() as int)
        } by {
            if j < b.len() {
                assert(c[j] == c.subrange(0, b.len() as int)[j]);
                assert(fresh_within(g1.vertices@[i].arcs@[j], g0.vertices@.len()));
            }
        }
    }
}

/// A graph grows into itself.
pub proof fn lemma_arcs_grown_refl(g: Graph, ok: MoveLaw)
    ensures
        arcs_grown(g, g, ok),
{
    assert forall|i: int| 0 <= i < g.vertices@.len() implies g.vertices@[i].arcs@.subrange(
        0,
        g.vertices@[i].arcs@.len() as int,
    ) == (#[trigger] g.vertices@[i]).arcs@ by {
        assert(g.vertices@[i].arcs@.subrange(0, g.vertices@[i].arcs@.len() as int)
            =~= g.vertices@[i].arcs@);
    }
}

/// Where every move from `src` goes to a vertex of the graph that `law`
/// allows in both directions, every tip that the moves add names a vertex of
/// the graph and is allowed from the vertex it is added to.
pub proof fn lemma_moves_tips_within(
    src: usize,
    tips: Seq<usize>,
    directed: bool,
    i: int,
    order: nat,
    law: MoveLaw,
)
    requires
        src < order,
        forall|t: int|
            0 <= t < tips.len() ==> #[trigger] tips[t] < order && law.allows(src as int, tips[t] as int)
                && law.allows(tips[t] as int, src as int),
    ensures
        forall|j: int|
            0 <= j < moves_tips(src, tips, directed, i).len() ==> #[trigger] moves_tips(
                src,
                tips,
                directed,
                i,
            )[j] < order && law.allows(i, moves_tips(src, tips, directed, i)[j] as int),
    decreases tips.len(),
{
    if tips.len() > 0 {
        lemma_moves_tips_within(src, tips.drop_last(), directed, i, order, law);
        let a = moves_tips(src, tips.drop_last(), directed, i);
        let b = move_tips(src, tips.last(), directed, i);
        assert(tips.last() == tips[tips.len() - 1]);
        assert forall|j: int| 0 <= j < (a + b).len() implies #[trigger] (a + b)[j] < order
            && law.allows(i, (a + b)[j] as int) by {
            if j < a.len() {
                assert((a + b)[j] == a[j]);
            }
        }
    }
}

/// The rules of the moves of `piece` on a board of sizes `ranges`.
pub open spec fn move_rules(
    ranges: Seq<usize>,
    wrap: Seq<bool>,
    prior: Seq<isize>,
    change: Seq<isize>,
    piece: isize,
) -> MoveRules {
    MoveRules { ranges, wrap, prior, change, piece }
}

impl MoveRules {
    /// Rounds that all go on leave the last round where it was.
    pub proof fn lemma_stop_skips(self, s0: Seq<isize>, t0: nat, t: nat, bound: nat)
        requires
            t0 <= t <= bound,
            forall|j: nat| t0 <= j < t ==> #[trigger] self.goes_on(self.state_at(s0, j)),
        ensures
            self.stop_from(s0, t0, bound) == self.stop_from(s0, t, bound),
        decreases t - t0,
    {
        if t0 < t {
            assert(self.goes_on(self.state_at(s0, t0)));
            self.lemma_stop_skips(s0, t0 + 1, t, bound);
        }
    }

    /// A round that is reached lies at or before the last round; it is the
    /// last round when no round follows it.
    pub proof fn lemma_last_round(self, s0: Seq<isize>, t: nat)
        requires
            t <= usize::MAX,
            self.reaches(s0, t),
        ensures
            t <= self.last_round(s0),
            t < usize::MAX && !self.goes_on(self.state_at(s0, t)) ==> self.last_round(s0) == t,
            t == usize::MAX ==> self.last_round(s0) == t,
    {
        self.lemma_stop_skips(s0, 0, t, usize::MAX as nat);
        self.lemma_stop_from_at_least(s0, t, usize::MAX as nat);
    }

    /// The last round from `t` on is at least `t`.
    pub proof fn lemma_stop_from_at_least(self, s0: Seq<isize>, t: nat, bound: nat)
        requires
            t <= bound,
        ensures
            t <= self.stop_from(s0, t, bound) <= bound,
        decreases bound - t,
    {
        if t < bound && self.goes_on(self.state_at(s0, t)) {
            self.lemma_stop_from_at_least(s0, t + 1, bound);
        }
    }
}

/// Once a component cannot be wrapped, the components after it are left alone.
pub proof fn lemma_wrapped_prefix_stops(
    state: Seq<isize>,
    ranges: Seq<usize>,
    wrap: Seq<bool>,
    k: nat,
    l: nat,
)
    requires
        k <= l,
        !wrapped_prefix(state, ranges, wrap, k).1,
    ensures
        wrapped_prefix(state, ranges, wrap, l) == wrapped_prefix(state, ranges, wrap, k),
    decreases l - k,
{
    if k < l {
        lemma_wrapped_prefix_stops(state, ranges, wrap, k, (l - 1) as nat);
    }
}

/// Raises a negative coordinate by its size `m` until it is no longer
/// negative: the steps of `(c..0).step_by(m)`.
fn raise_coordinate(c: isize, m: isize) -> (r: isize)
    requires
        c < 0,
        m > 0,
    ensures
        r as int == c as int % m as int,
{
    let mut x = c;
    while x < 0
        invariant
            m > 0,
            x < m,
            x as int % m as int == c as int % m as int,
        decreases if x < 0 {
            -x
        } else {
            0
        },
    {
        proof {
            vstd::arithmetic::div_mod::lemma_mod_add_multiples_vanish(x as int, m as int);
        }
        x = x + m;
    }
    proof {
        vstd::arithmetic::div_mod::lemma_small_mod(x as nat, m as nat);
    }
    x
}

/// Lowers a coordinate at or above its size `m` by `m` until it is below
/// `m`: the coordinate modulo `m`.
fn lower_coordinate(c: isize, m: isize) -> (r: isize)
    requires
        c >= m,
        m > 0,
    ensures
        r as int == c as int % m as int,
{
    let mut x = c;
    while x >= m
        invariant
            m > 0,
            x >= 0,
            x as int % m as int == c as int % m as int,
        decreases x,
    {
        proof {
            vstd::arithmetic::div_mod::lemma_mod_sub_multiples_vanish(x as int, m as int);
        }
        x = x - m;
    }
    proof {
        vstd::arithmetic::div_mod::lemma_small_mod(x as nat, m as nat);
    }
    x
}

/// Whether two states are the same, component by component and in length.
fn same_state(a: &Vec<isize>, b: &[isize]) -> (r: bool)
    ensures
        r == (a@ == b@),
{
    if a.len() != b.len() {
        return false;
    }
    let mut j: usize = 0;
    while j < a.len()
        invariant
            a@.len() == b@.len(),
            j <= a@.len(),
            forall|i: int| 0 <= i < j ==> a@[i] == b@[i],
        decreases a@.len() - j,
    {
        if a[j] != b[j] {
            return false;
        }
        j = j + 1;
    }
    assert(a@ =~= b@);
    true
}

/// Adds the move from `src` to `dst`: an arc, or for an undirected move an
/// edge, the arc from `src` to `dst` first.
fn add_move(graph: &mut Graph, src: usize, dst: usize, directed: bool) -> (r: Result<(), ArcAddError>)
    requires
        src < old(graph).vertices@.len(),
        dst < old(graph).vertices@.len(),
    ensures
        r is Ok ==> arcs_extended(
            *final(graph),
            *old(graph),
            (|i: int| move_tips(src, dst, directed, i)),
        ),
        r matches Err(e) ==> {
            &&& e == ArcAddError::AuxiliaryAlloc(AllocFailureSrc::ArcCreation)
            &&& arcs_extended(
                *final(graph),
                *old(graph),
                (|i: int| partial_move_tips(src, dst, false, i)),
            ) || arcs_extended(
                *final(graph),
                *old(graph),
                (|i: int| partial_move_tips(src, dst, true, i)),
            )
        },
{
    let ghost g0 = *graph;
    let ghost single = (|i: int| if i == src { seq![dst] } else { Seq::<usize>::empty() });
    let ghost back = (|i: int| if i == dst { seq![src] } else { Seq::<usize>::empty() });
    let ghost none = (|i: int| partial_move_tips(src, dst, false, i));
    let ghost first = (|i: int| partial_move_tips(src, dst, true, i));
    match graph.new_arc(src, dst) {
        Ok(()) => {},
        Err(e) => {
            proof {
                assert(graph.same_arcs(g0));
                assert forall|i: int| 0 <= i < graph.vertices@.len() implies vertex_extended(
                    #[trigger] graph.vertices@[i],
                    g0.vertices@[i],
                    none(i),
                ) by {
                    assert(graph.vertices@[i].arcs@.subrange(0, g0.vertices@[i].arcs@.len() as int)
                        =~= g0.vertices@[i].arcs@);
                }
                assert(arcs_extended(*graph, g0, none));
            }
            return Err(e);
        },
    }
    proof {
        lemma_arc_added_extends(g0, *graph, src, dst, single);
    }
    if directed {
        proof {
            assert forall|i: int| 0 <= i < g0.vertices@.len() implies #[trigger] single(i)
                == move_tips(src, dst, directed, i) by {
                assert(single(i) =~= move_tips(src, dst, directed, i));
            }
            lemma_arcs_extended_refl(g0, none);
            lemma_arcs_extended_trans(
                g0,
                g0,
                *graph,
                none,
                single,
                (|i: int| move_tips(src, dst, directed, i)),
            );
        }
        return Ok(());
    }
    let ghost g1 = *graph;
    match graph.new_arc(dst, src) {
        Ok(()) => {
            proof {
                lemma_arc_added_extends(g1, *graph, dst, src, back);
                lemma_arcs_extended_trans(
                    g0,
                    g1,
                    *graph,
                    single,
                    back,
                    (|i: int| move_tips(src, dst, directed, i)),
                );
            }
            Ok(())
        },
        Err(e) => {
            proof {
                assert(graph.same_arcs(g1));
                assert forall|i: int| 0 <= i < graph.vertices@.len() implies vertex_extended(
                    #[trigger] graph.vertices@[i],
                    g0.vertices@[i],
                    first(i),
                ) by {
                    assert(vertex_extended(g1.vertices@[i], g0.vertices@[i], single(i)));
                    assert(first(i) =~= single(i));
                    assert(graph.vertices@[i].arcs@ == g1.vertices@[i].arcs@);
                }
                assert(arcs_extended(*graph, g0, first));
            }
            Err(e)
        },
    }
}

/// Wraps the coordinates of `current`, in order, until one cannot be
/// wrapped; tells whether all could.
fn wrap_state(current: &mut Vec<isize>, ranges: &[usize], wrap: &[bool]) -> (all: bool)
    requires
        forall|k: int| 0 <= k < ranges@.len() ==> 1 <= #[trigger] ranges@[k] <= isize::MAX,
    ensures
        (final(current)@, all) == wrapped_state(old(current)@, ranges@, wrap@),
{
    let ghost st = current@;
    let l = if current.len() <= ranges.len() {
        current.len()
    } else {
        ranges.len()
    };
    let l = if l <= wrap.len() {
        l
    } else {
        wrap.len()
    };
    let mut k: usize = 0;
    while k < l
        invariant
            k <= l,
            l == wrapped_len(st, ranges@, wrap@),
            st == old(current)@,
            l <= st.len(),
            current@.len() == st.len(),
            current@ == wrapped_prefix(st, ranges@, wrap@, k as nat).0,
            wrapped_prefix(st, ranges@, wrap@, k as nat).1,
            forall|j: int| 0 <= j < ranges@.len() ==> 1 <= #[trigger] ranges@[j] <= isize::MAX,
        decreases l - k,
    {
        proof {
            lemma_wrapped_prefix_keeps_from(st, ranges@, wrap@, k as nat, k as int);
        }
        let c = current[k];
        let m = ranges[k] as isize;
        let w = wrap[k];
        if 0 <= c && c < m {
            proof {
                assert(current@.update(k as int, c) =~= current@);
            }
        } else if w {
            let x = if c < 0 {
                raise_coordinate(c, m)
            } else {
                lower_coordinate(c, m)
            };
            current.set(k, x);
        } else {
            proof {
                assert(wrapped_coordinate(c, ranges@[k as int], w) is None);
                assert(wrapped_prefix(st, ranges@, wrap@, (k + 1) as nat) == (current@, false));
                lemma_wrapped_prefix_stops(st, ranges@, wrap@, (k + 1) as nat, l as nat);
            }
            return false;
        }
        k = k + 1;
    }
    true
}

/// Components from `k` on are not touched by wrapping the first `k`.
pub proof fn lemma_wrapped_prefix_keeps_from(
    state: Seq<isize>,
    ranges: Seq<usize>,
    wrap: Seq<bool>,
    k: nat,
    i: int,
)
    requires
        k <= i < state.len(),
    ensures
        wrapped_prefix(state, ranges, wrap, k).0[i] == state[i],
        wrapped_prefix(state, ranges, wrap, k).0.len() == state.len(),
    decreases k,
{
    if k > 0 {
        lemma_wrapped_prefix_keeps_from(state, ranges, wrap, (k - 1) as nat, i);
    }
}

/// The index of the vertex whose coordinates `state` holds.
fn index_of(state: &Vec<isize>, ranges: &[usize]) -> (r: usize)
    requires
        state@.len() >= 1,
        index_fits(state@, ranges@),
        forall|k: int| 0 <= k < ranges@.len() ==> 1 <= #[trigger] ranges@[k] <= isize::MAX,
    ensures
        r == vertex_index(state@, ranges@),
{
    let l2 = if state.len() <= ranges.len() {
        state.len()
    } else {
        ranges.len()
    };
    let mut idx: isize = state[0];
    let mut k: usize = 1;
    while k < l2
        invariant
            1 <= k,
            k <= l2 || l2 == 0,
            l2 == 0 ==> k == 1,
            l2 == index_len(state@, ranges@),
            state@.len() >= 1,
            index_fits(state@, ranges@),
            idx as int == index_prefix(state@, ranges@, k as nat),
            forall|j: int| 0 <= j < ranges@.len() ==> 1 <= #[trigger] ranges@[j] <= isize::MAX,
        decreases l2 - k,
    {
        assert(isize::MIN <= index_prefix(state@, ranges@, (k + 1) as nat) <= isize::MAX);
        assert(isize::MIN <= ranges@[k as int] as int * index_prefix(state@, ranges@, k as nat)
            <= isize::MAX);
        let m = ranges[k] as isize;
        idx = m * idx + state[k];
        k = k + 1;
    }
    assert(idx as int == index_prefix(
        state@,
        ranges@,
        if index_len(state@, ranges@) >= 1 {
            index_len(state@, ranges@)
        } else {
            1
        },
    ));
    #[verifier::truncate] (idx as usize)
}

/// Moves `current` on by `change`, component by component.
fn apply_change(current: &mut Vec<isize>, change: &[isize])
    requires
        move_fits(old(current)@, change@),
    ensures
        final(current)@ == moved_state(old(current)@, change@),
{
    let ghost st = current@;
    let lc = if current.len() <= change.len() {
        current.len()
    } else {
        change.len()
    };
    let mut k: usize = 0;
    while k < lc
        invariant
            k <= lc,
            lc as int == if st.len() <= change@.len() {
                st.len() as int
            } else {
                change@.len() as int
            },
            current@.len() == st.len(),
            move_fits(st, change@),
            forall|j: int| 0 <= j < k ==> #[trigger] current@[j] == (st[j] + change@[j]) as isize,
            forall|j: int| k <= j < st.len() ==> #[trigger] current@[j] == st[j],
        decreases lc - k,
    {
        let x = current[k] + change[k];
        current.set(k, x);
        k = k + 1;
    }
    assert(current@ =~= moved_state(st, change@));
}

/// Wrapping keeps the length of the state, and where every one of the first
/// `k` components could be wrapped, each of them lies on the board.
pub proof fn lemma_wrapped_prefix_on_board(
    state: Seq<isize>,
    ranges: Seq<usize>,
    wrap: Seq<bool>,
    k: nat,
)
    requires
        k <= state.len(),
        k <= ranges.len(),
        k <= wrap.len(),
        forall|j: int| 0 <= j < ranges.len() ==> 1 <= #[trigger] ranges[j] <= isize::MAX,
    ensures
        wrapped_prefix(state, ranges, wrap, k).0.len() == state.len(),
        wrapped_prefix(state, ranges, wrap, k).1 ==> forall|j: int|
            0 <= j < k ==> 0 <= #[trigger] wrapped_prefix(state, ranges, wrap, k).0[j] < ranges[j],
        wrapped_prefix(state, ranges, wrap, k).1 ==> forall|j: int|
            0 <= j < k ==> #[trigger] wrapped_prefix(state, ranges, wrap, k).0[j] as int
                == if wrap[j] {
                state[j] as int % ranges[j] as int
            } else {
                state[j] as int
            },
    decreases k,
{
    if k > 0 {
        lemma_wrapped_prefix_on_board(state, ranges, wrap, (k - 1) as nat);
        lemma_wrapped_prefix_keeps_from(state, ranges, wrap, (k - 1) as nat, k - 1);
        let (s, all) = wrapped_prefix(state, ranges, wrap, (k - 1) as nat);
        let j = k - 1;
        let c = s[j];
        let m = ranges[j];
        if all && !(0 <= c < m) && wrap[j] {
            vstd::arithmetic::div_mod::lemma_mod_bound(c as int, m as int);
        }
        if all && 0 <= c < m && wrap[j] {
            vstd::arithmetic::div_mod::lemma_small_mod(c as nat, m as nat);
        }
    }
}

/// The index of coordinates on the board lies below the product of the sizes
/// of the components it is read from.
pub proof fn lemma_index_prefix_bounds(state: Seq<isize>, ranges: Seq<usize>, k: nat)
    requires
        1 <= k <= state.len(),
        k <= ranges.len(),
        forall|j: int| 0 <= j < k ==> 0 <= #[trigger] state[j] < ranges[j],
    ensures
        0 <= index_prefix(state, ranges, k) < product(ranges.take(k as int)),
    decreases k,
{
    assert(ranges.take(k as int).drop_last() =~= ranges.take(k - 1));
    assert(ranges.take(k as int).last() == ranges[k - 1]);
    assert(product(ranges.take(k as int)) == product(ranges.take(k - 1)) * ranges[k - 1]);
    if k == 1 {
        assert(ranges.take(0) =~= Seq::<usize>::empty());
        assert(product(ranges.take(0)) == 1);
        assert(state[0] < ranges[0]);
    } else {
        lemma_index_prefix_bounds(state, ranges, (k - 1) as nat);
        let v = index_prefix(state, ranges, (k - 1) as nat);
        let p = product(ranges.take(k - 1));
        let m = ranges[k - 1] as int;
        let c = state[k - 1] as int;
        assert(0 <= m * v + c < p * m) by (nonlinear_arith)
            requires
                0 <= v < p,
                0 <= c < m,
        ;
    }
}

impl MoveRules {
    /// The sizes and the motion leave room for every move on a graph of `order`
    /// vertices: there is a component, every size is positive, the cells fit in
    /// an `isize` and are at most `order`, and a coordinate on the board moved by
    /// the motion fits in an `isize`.
    pub open spec fn board_fits(self, order: nat) -> bool {
        &&& self.ranges.len() >= 1
        &&& self.wrap.len() >= self.ranges.len()
        &&& self.change.len() == self.ranges.len()
        &&& all_positive(self.ranges)
        &&& product(self.ranges) <= order
        &&& product(self.ranges) <= isize::MAX
        &&& forall|k: int|
            0 <= k < self.ranges.len() ==> {
                &&& #[trigger] self.ranges[k] <= isize::MAX
                &&& self.ranges[k] + self.change[k] <= isize::MAX
                &&& self.ranges[k] - self.change[k] <= isize::MAX
            }
    }
}

impl MoveRules {
    /// Where the board leaves room for every move, every round from a state
    /// with a coordinate per component can be played.
    pub proof fn lemma_round_defined(self, state: Seq<isize>, order: nat)
        requires
            self.board_fits(order),
            state.len() == self.ranges.len(),
        ensures
            self.round_defined(state, order),
            self.next(state).len() == state.len(),
    {
        let d = self.ranges.len();
        let w = wrapped_state(state, self.ranges, self.wrap).0;
        assert(wrapped_len(state, self.ranges, self.wrap) == d);
        lemma_wrapped_prefix_on_board(state, self.ranges, self.wrap, d);
        if self.adds_arc(state) {
            assert forall|k: nat| 1 <= k <= index_len(w, self.ranges) implies isize::MIN
                <= #[trigger] index_prefix(w, self.ranges, k) <= isize::MAX by {
                lemma_index_prefix_bounds(w, self.ranges, k);
                lemma_product_prefix_monotone(self.ranges, k, d);
                assert(self.ranges.take(d as int) =~= self.ranges);
            }
            assert forall|k: nat| 2 <= k <= index_len(w, self.ranges) implies isize::MIN
                <= self.ranges[k - 1] as int * #[trigger] index_prefix(w, self.ranges, (k - 1) as nat)
                <= isize::MAX by {
                lemma_index_prefix_bounds(w, self.ranges, k);
                lemma_index_prefix_bounds(w, self.ranges, (k - 1) as nat);
                lemma_product_prefix_monotone(self.ranges, k, d);
                assert(self.ranges.take(d as int) =~= self.ranges);
                let v = index_prefix(w, self.ranges, (k - 1) as nat);
                let m = self.ranges[k - 1] as int;
                assert(m * v >= 0) by (nonlinear_arith)
                    requires
                        m >= 1,
                        v >= 0,
                ;
            }
            lemma_index_prefix_bounds(w, self.ranges, d);
            assert(self.ranges.take(d as int) =~= self.ranges);
        }
    }

    /// Where the board leaves room for every move, every round from a state
    /// with a coordinate per component keeps that length and can be played.
    pub proof fn lemma_state_at_len(self, s0: Seq<isize>, t: nat, order: nat)
        requires
            self.board_fits(order),
            s0.len() == self.ranges.len(),
        ensures
            self.state_at(s0, t).len() == s0.len(),
        decreases t,
    {
        if t > 0 {
            self.lemma_state_at_len(s0, (t - 1) as nat, order);
            self.lemma_round_defined(self.state_at(s0, (t - 1) as nat), order);
        }
    }

    /// Where the board leaves room for every move, the moves from a state with
    /// a coordinate per component can all be played.
    pub proof fn lemma_defined_from(self, s0: Seq<isize>, order: nat)
        requires
            self.board_fits(order),
            s0.len() == self.ranges.len(),
        ensures
            self.defined_from(s0, order),
    {
        assert forall|t: nat| t < usize::MAX && self.reaches(s0, t) implies self.round_defined(
            #[trigger] self.state_at(s0, t),
            order,
        ) by {
            self.lemma_state_at_len(s0, t, order);
            self.lemma_round_defined(self.state_at(s0, t), order);
        }
    }

    /// Where the board leaves room for every move, the state the moves leave
    /// behind, and the wrapped state of every round, keep the length of a
    /// state with a coordinate per component.
    pub proof fn lemma_final_state_len(self, s0: Seq<isize>, order: nat)
        requires
            self.board_fits(order),
            s0.len() == self.ranges.len(),
        ensures
            self.final_state(s0).len() == s0.len(),
            forall|j: nat|
                #[trigger] wrapped_state(self.state_at(s0, j), self.ranges, self.wrap).0.len()
                    == s0.len(),
    {
        assert forall|j: nat|
            #[trigger] wrapped_state(self.state_at(s0, j), self.ranges, self.wrap).0.len()
                == s0.len() by {
            self.lemma_state_at_len(s0, j, order);
            lemma_wrapped_prefix_on_board(
                self.state_at(s0, j),
                self.ranges,
                self.wrap,
                wrapped_len(self.state_at(s0, j), self.ranges, self.wrap),
            );
        }
        self.lemma_state_at_len(s0, self.last_round(s0), order);
    }

    /// Rounds before the last one from `t` on are followed by another.
    pub proof fn lemma_before_stop(self, s0: Seq<isize>, t: nat, bound: nat, j: nat)
        requires
            t <= j < self.stop_from(s0, t, bound),
            t <= bound,
        ensures
            self.goes_on(self.state_at(s0, j)),
        decreases bound - t,
    {
        if t < bound && self.goes_on(self.state_at(s0, t)) && t < j {
            self.lemma_before_stop(s0, t + 1, bound, j);
        }
    }

    /// Every round counted adds an arc; a positive piece adds at most one.
    pub proof fn lemma_counted_adds(self, s0: Seq<isize>, j: nat)
        requires
            j < self.arc_count(s0),
        ensures
            self.adds_arc(self.state_at(s0, j)),
            self.piece > 0 ==> j == 0,
    {
        let t = self.last_round(s0);
        if j < t {
            self.lemma_before_stop(s0, 0, usize::MAX as nat, j);
        }
        if self.piece > 0 && j > 0 {
            self.lemma_before_stop(s0, 0, usize::MAX as nat, 0);
        }
    }

    /// Where the board leaves room for every move and every round up to `t`
    /// from a vertex `x` on the board moved by the motion adds an arc, the
    /// wrapped state of round `t` lies on the board, where the piece lands
    /// after `t + 1` steps of the motion.
    pub proof fn lemma_rounds_land(self, x: Seq<isize>, t: nat, order: nat)
        requires
            self.board_fits(order),
            x.len() == self.ranges.len(),
            forall|c: int| 0 <= c < x.len() ==> 0 <= #[trigger] x[c] < self.ranges[c],
            forall|j: nat| j <= t ==> self.adds_arc(#[trigger] self.state_at(moved_state(x, self.change), j)),
        ensures
            wrapped_state(self.state_at(moved_state(x, self.change), t), self.ranges, self.wrap).0.len()
                == x.len(),
            forall|c: int|
                0 <= c < x.len() ==> 0 <= #[trigger] wrapped_state(
                    self.state_at(moved_state(x, self.change), t),
                    self.ranges,
                    self.wrap,
                ).0[c] < self.ranges[c],
            lands_on(
                self.ranges,
                self.wrap,
                isize_ints(x),
                self.change,
                (t + 1) as int,
                isize_ints(
                    wrapped_state(self.state_at(moved_state(x, self.change), t), self.ranges, self.wrap).0,
                ),
            ),
        decreases t,
    {
        let d = self.ranges.len();
        let s0 = moved_state(x, self.change);
        let st = self.state_at(s0, t);
        let w = wrapped_state(st, self.ranges, self.wrap).0;
        self.lemma_state_at_len(s0, t, order);
        assert(wrapped_len(st, self.ranges, self.wrap) == d);
        lemma_wrapped_prefix_on_board(st, self.ranges, self.wrap, d);
        assert(self.adds_arc(self.state_at(s0, t)));
        if t == 0 {
            assert forall|c: int| 0 <= c < d implies #[trigger] isize_ints(w)[c] == if self.wrap[c] {
                (isize_ints(x)[c] + (t + 1) * self.change[c]) % (self.ranges[c] as int)
            } else {
                isize_ints(x)[c] + (t + 1) * self.change[c]
            } by {
                assert(self.ranges[c] <= isize::MAX);
                assert(self.state_at(s0, 0) == s0);
                assert(st[c] as int == x[c] + self.change[c]);
                assert(isize_ints(w)[c] == w[c] as int);
                assert(isize_ints(x)[c] == x[c] as int);
                let dc = self.change[c] as int;
                assert((t + 1) * dc == dc) by (nonlinear_arith)
                    requires
                        t == 0,
                ;
                if self.wrap[c] {
                    assert(w[c] as int == st[c] as int % self.ranges[c] as int);
                } else {
                    assert(w[c] as int == st[c] as int);
                }
            }
        } else {
            self.lemma_rounds_land(x, (t - 1) as nat, order);
            let prev = wrapped_state(self.state_at(s0, (t - 1) as nat), self.ranges, self.wrap).0;
            assert(st == moved_state(prev, self.change));
            assert forall|c: int| 0 <= c < d implies #[trigger] isize_ints(w)[c] == if self.wrap[c] {
                (isize_ints(x)[c] + (t + 1) * self.change[c]) % (self.ranges[c] as int)
            } else {
                isize_ints(x)[c] + (t + 1) * self.change[c]
            } by {
                let m = self.ranges[c] as int;
                let dc = self.change[c] as int;
                let z = x[c] + t * dc;
                assert(self.ranges[c] <= isize::MAX);
                assert(isize_ints(prev)[c] == if self.wrap[c] { z % m } else { z });
                assert(0 <= prev[c] < m);
                assert(st[c] as int == prev[c] + dc);
                assert(t * dc + dc == (t + 1) * dc) by (nonlinear_arith);
                if self.wrap[c] {
                    vstd::arithmetic::div_mod::lemma_add_mod_noop_right(dc, z, m);
                    assert(dc + z == x[c] + (t + 1) * dc);
                }
            }
        }
    }

    /// A round that adds an arc and is reached is one of the arcs counted.
    pub proof fn lemma_arc_counted(self, s0: Seq<isize>, t: nat)
        requires
            t < usize::MAX,
            self.reaches(s0, t),
            self.adds_arc(self.state_at(s0, t)),
        ensures
            t < self.arc_count(s0),
    {
        self.lemma_last_round(s0, t);
    }
}

impl MoveRules {
    /// The tips of the arcs the first `t` rounds from `s0` add.
    pub open spec fn tips_upto(self, s0: Seq<isize>, t: nat) -> Seq<usize> {
        Seq::new(t, |k: int| self.tip(self.state_at(s0, k as nat)))
    }

    /// The moves from `s0` of the vertex `src` failed at round `j`, after the
    /// first arc of its move (`first`) or before it: `j` is one of the rounds
    /// that add an arc, the tips up to it name vertices of `before`, `state` is
    /// the wrapped state of round `j`, and `after` is `before` with the moves of
    /// the rounds before `j` and what round `j` added.
    pub open spec fn failed_at(
        self,
        s0: Seq<isize>,
        src: usize,
        directed: bool,
        j: nat,
        first: bool,
        after: Graph,
        before: Graph,
        state: Seq<isize>,
    ) -> bool {
        &&& j < self.arc_count(s0)
        &&& forall|t: int| 0 <= t <= j ==> #[trigger] self.tips(s0)[t] < before.vertices@.len()
        &&& state == wrapped_state(self.state_at(s0, j), self.ranges, self.wrap).0
        &&& arcs_extended(
            after,
            before,
            (|i: int|
                moves_tips(src, self.tips(s0).take(j as int), directed, i) + partial_move_tips(
                    src,
                    self.tips(s0)[j as int],
                    first,
                    i,
                )),
        )
    }
}

/// Adds the arcs of the moves of `piece` from the vertex `src`, whose
/// coordinates `current_state` holds after the motion `change` was applied
/// once to `prior_state`.
///
/// Each round wraps the coordinates that left the board where `wrap` lets
/// them and stops when one of them cannot be wrapped, or when a riding
/// (negative) piece is back on the prior state; it then adds the move to the
/// vertex of the coordinates: an arc, or an edge where the board is
/// undirected. A positive piece stops there; a riding one moves on by
/// `change` for the next round, for at most `usize::MAX` rounds.
pub fn gen_moves(
    graph: &mut Graph,
    src: usize,
    current_state: &mut Vec<isize>,
    prior_state: &[isize],
    change: &[isize],
    component_range: &[usize],
    wrap: &[bool],
    directed: bool,
    piece: isize,
) -> (r: Result<(), GenMovesError>)
    requires
        src < old(graph).vertices@.len(),
        forall|k: int|
            0 <= k < component_range@.len() ==> 1 <= #[trigger] component_range@[k]
                <= isize::MAX,
        move_rules(component_range@, wrap@, prior_state@, change@, piece).defined_from(
            old(current_state)@,
            old(graph).vertices@.len(),
        ),
    ensures
        r is Ok ==> {
            &&& arcs_extended(
                *final(graph),
                *old(graph),
                (|i: int|
                    moves_tips(
                        src,
                        move_rules(component_range@, wrap@, prior_state@, change@, piece).tips(
                            old(current_state)@,
                        ),
                        directed,
                        i,
                    )),
            )
            &&& forall|t: int|
                0 <= t < move_rules(component_range@, wrap@, prior_state@, change@, piece).arc_count(
                    old(current_state)@,
                ) ==> #[trigger] move_rules(component_range@, wrap@, prior_state@, change@, piece).tips(
                    old(current_state)@,
                )[t] < old(graph).vertices@.len()
            &&& final(current_state)@ == move_rules(
                component_range@,
                wrap@,
                prior_state@,
                change@,
                piece,
            ).final_state(old(current_state)@)
        },
        move_rules(component_range@, wrap@, prior_state@, change@, piece).arc_count(
            old(current_state)@,
        ) == 0 ==> r is Ok,
        r matches Err(e) ==> {
            &&& e == GenMovesError::ArcAddition(
                ArcAddError::AuxiliaryAlloc(AllocFailureSrc::ArcCreation),
            )
            &&& exists|j: nat, first: bool|
                move_rules(component_range@, wrap@, prior_state@, change@, piece).failed_at(
                    old(current_state)@,
                    src,
                    directed,
                    j,
                    first,
                    *final(graph),
                    *old(graph),
                    final(current_state)@,
                )
        },
{
    let ghost rules = move_rules(component_range@, wrap@, prior_state@, change@, piece);
    let ghost s0 = current_state@;
    let ghost g0 = *graph;
    let ghost order = graph.vertices@.len();
    let mut weight: usize = 0;
    proof {
        lemma_arcs_extended_refl(g0, (|i: int| moves_tips(src, rules.tips_upto(s0, 0), directed, i)));
    }
    while weight < usize::MAX
        invariant
            rules == move_rules(component_range@, wrap@, prior_state@, change@, piece),
            g0 == *old(graph),
            s0 == old(current_state)@,
            order == g0.vertices@.len(),
            src < order,
            forall|k: int|
                0 <= k < component_range@.len() ==> 1 <= #[trigger] component_range@[k]
                    <= isize::MAX,
            rules.defined_from(s0, order),
            current_state@ == rules.state_at(s0, weight as nat),
            rules.reaches(s0, weight as nat),
            forall|t: int| 0 <= t < weight ==> #[trigger] rules.tip(rules.state_at(s0, t as nat)) < order,
            forall|t: int| 0 <= t < weight ==> rules.adds_arc(#[trigger] rules.state_at(s0, t as nat)),
            arcs_extended(
                *graph,
                g0,
                (|i: int| moves_tips(src, rules.tips_upto(s0, weight as nat), directed, i)),
            ),
        decreases usize::MAX - weight,
    {
        let ghost t = weight as nat;
        let ghost st = current_state@;
        let ghost done = rules.tips_upto(s0, t);
        proof {
            rules.lemma_last_round(s0, t);
            assert(rules.round_defined(rules.state_at(s0, t), order));
        }
        if !wrap_state(current_state, component_range, wrap) {
            proof {
                assert(done =~= rules.tips(s0));
            }
            return Ok(());
        }
        if piece < 0 && same_state(current_state, prior_state) {
            proof {
                assert(done =~= rules.tips(s0));
            }
            return Ok(());
        }
        let dst = index_of(current_state, component_range);
        let ghost before = *graph;
        proof {
            rules.lemma_arc_counted(s0, t);
            assert(rules.tips(s0).take(t as int) =~= done);
            assert(rules.tips(s0)[t as int] == dst);
        }
        match add_move(graph, src, dst, directed) {
            Ok(()) => {},
            Err(e) => {
                proof {
                    let first = arcs_extended(
                        *graph,
                        before,
                        (|i: int| partial_move_tips(src, dst, true, i)),
                    );
                    lemma_arcs_extended_trans(
                        g0,
                        before,
                        *graph,
                        (|i: int| moves_tips(src, done, directed, i)),
                        (|i: int| partial_move_tips(src, dst, first, i)),
                        (|i: int|
                            moves_tips(src, rules.tips(s0).take(t as int), directed, i)
                                + partial_move_tips(src, rules.tips(s0)[t as int], first, i)),
                    );
                    assert(rules.failed_at(s0, src, directed, t, first, *graph, g0, current_state@));
                }
                return Err(GenMovesError::ArcAddition(e));
            },
        }
        proof {
            let next = rules.tips_upto(s0, t + 1);
            assert(next.drop_last() =~= done);
            assert(next.last() == dst);
            lemma_arcs_extended_trans(
                g0,
                before,
                *graph,
                (|i: int| moves_tips(src, done, directed, i)),
                (|i: int| move_tips(src, dst, directed, i)),
                (|i: int| moves_tips(src, next, directed, i)),
            );
        }
        if piece > 0 {
            proof {
                assert(rules.tips_upto(s0, t + 1) =~= rules.tips(s0));
            }
            return Ok(());
        }
        apply_change(current_state, change);
        proof {
            assert(rules.goes_on(st));
            assert forall|j: nat| j < t + 1 implies #[trigger] rules.goes_on(
                rules.state_at(s0, j),
            ) by {
                if j < t {
                    assert(rules.reaches(s0, t));
                }
            }
        }
        weight = weight + 1;
    }
    proof {
        rules.lemma_last_round(s0, usize::MAX as nat);
        assert(rules.tips_upto(s0, weight as nat) =~= rules.tips(s0));
    }
    Ok(())
}

} // verus!
