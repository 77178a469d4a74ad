//! Where the moves of a piece from one vertex land: the arcs that the moves
//! of a vertex add, stated by the steps of the motion rather than by the
//! rounds of the move generation.
use vstd::prelude::*;

use crate::board::moves::{
    index_prefix, lemma_wrapped_prefix_keeps_from, lemma_wrapped_prefix_on_board, moved_state,
    vertex_index, wrapped_coordinate, wrapped_len, wrapped_prefix, wrapped_state, MoveRules,
};
use crate::board::enumeration::{
    leads_positive, lemma_board_motions_complete, lemma_board_motions_sound,
};
use crate::board::moves::{move_rules, move_tips, moves_tips};
use crate::board::{
    arc_tips, arcs_exactly, board_admissible, is_board, lemma_normalized_sizes_positive,
    normalized_sizes,
};
use crate::board::{
    all_positive, board_motions, board_tips, coordinates, coords_isize, in_range, isize_ints,
    lemma_coordinates_distinct, lemma_coordinates_value, lemma_index_coordinates,
    lemma_sum_squares_monotone, magnitude_of, motion_fits, motions_fit, motions_tips, product,
    sum_squares, sweep_tips, vertex_tips, wrap_bits,
};

verus! {

/// Component `c` of the piece on `x` after `k` steps of `delta`, before
/// wrapping.
pub open spec fn stepped(x: Seq<int>, delta: Seq<isize>, k: int, c: int) -> int {
    x[c] + k * delta[c]
}

/// Where the piece on `x` lands after `k` steps of `delta` on a board of
/// `sizes`: each component moved on by `k` times its motion and brought back
/// modulo its size where it wraps around.
pub open spec fn landing(
    sizes: Seq<usize>,
    wrap: Seq<bool>,
    x: Seq<int>,
    delta: Seq<isize>,
    k: int,
) -> Seq<int> {
    Seq::new(
        sizes.len(),
        |c: int|
            if wrap[c] {
                stepped(x, delta, k, c) % (sizes[c] as int)
            } else {
                stepped(x, delta, k, c)
            },
    )
}

/// After `k` steps of `delta` from `x`, every component that does not wrap
/// around is still on the board.
pub open spec fn on_board(
    sizes: Seq<usize>,
    wrap: Seq<bool>,
    x: Seq<int>,
    delta: Seq<isize>,
    k: int,
) -> bool {
    forall|c: int|
        0 <= c < sizes.len() && !wrap[c] ==> 0 <= #[trigger] stepped(x, delta, k, c) < sizes[c]
}

/// The piece on `x` reaches the landing of `k` steps of `delta`: a piece that
/// does not ride takes one step; each of the steps lands on the board; a
/// riding piece is not back on `x` after any of them; and there are fewer
/// than `usize::MAX` of them.
pub open spec fn reaches_by(
    sizes: Seq<usize>,
    wrap: Seq<bool>,
    piece: isize,
    x: Seq<int>,
    delta: Seq<isize>,
    k: int,
) -> bool {
    &&& 1 <= k <= usize::MAX
    &&& piece > 0 ==> k == 1
    &&& forall|j: int|
        1 <= j <= k ==> #[trigger] on_board(sizes, wrap, x, delta, j) && !(piece < 0 && landing(
            sizes,
            wrap,
            x,
            delta,
            j,
        ) == x)
}

/// All components up to `k` can be wrapped exactly where each is on the
/// board or wraps around.
pub proof fn lemma_wrapped_all(st: Seq<isize>, ranges: Seq<usize>, wrap: Seq<bool>, k: nat)
    requires
        k <= st.len(),
        k <= ranges.len(),
        k <= wrap.len(),
        forall|j: int| 0 <= j < ranges.len() ==> 1 <= #[trigger] ranges[j] <= isize::MAX,
    ensures
        wrapped_prefix(st, ranges, wrap, k).1 <==> forall|j: int|
            0 <= j < k ==> #[trigger] wrap[j] || (0 <= st[j] && st[j] < ranges[j]),
    decreases k,
{
    if k > 0 {
        lemma_wrapped_all(st, ranges, wrap, (k - 1) as nat);
        lemma_wrapped_prefix_keeps_from(st, ranges, wrap, (k - 1) as nat, k - 1);
    }
}

impl MoveRules {
    /// Where every round before round `t` from the vertex `x`, moved by the
    /// motion, added an arc, the state of round `t` is the landing of `t`
    /// steps moved on by the motion once more.
    pub proof fn lemma_round_state(self, x: Seq<isize>, t: nat, order: nat)
        requires
            self.board_fits(order),
            x.len() == self.ranges.len(),
            forall|c: int| 0 <= c < x.len() ==> 0 <= #[trigger] x[c] < self.ranges[c],
            forall|j: nat| j < t ==> self.adds_arc(#[trigger] self.state_at(moved_state(x, self.change), j)),
        ensures
            self.state_at(moved_state(x, self.change), t).len() == x.len(),
            forall|c: int|
                0 <= c < x.len() ==> #[trigger] self.state_at(moved_state(x, self.change), t)[c]
                    as int == landing(self.ranges, self.wrap, isize_ints(x), self.change, t as int)[c]
                    + self.change[c],
    {
        let d = self.ranges.len();
        let s0 = moved_state(x, self.change);
        let xi = isize_ints(x);
        self.lemma_state_at_len(s0, t, order);
        if t == 0 {
            assert forall|c: int| 0 <= c < d implies #[trigger] self.state_at(s0, t)[c] as int
                == landing(self.ranges, self.wrap, xi, self.change, t as int)[c]
                + self.change[c] by {
                assert(self.ranges[c] <= isize::MAX);
                assert(self.state_at(s0, 0) == s0);
                let dc = self.change[c] as int;
                assert(t * dc == 0) by (nonlinear_arith)
                    requires
                        t == 0,
                ;
                assert(xi[c] == x[c] as int);
                vstd::arithmetic::div_mod::lemma_small_mod(x[c] as nat, self.ranges[c] as nat);
            }
        } else {
            assert forall|j: nat| j <= (t - 1) as nat implies self.adds_arc(
                #[trigger] self.state_at(s0, j),
            ) by {}
            self.lemma_rounds_land(x, (t - 1) as nat, order);
            let w = wrapped_state(self.state_at(s0, (t - 1) as nat), self.ranges, self.wrap).0;
            assert(self.state_at(s0, t) == moved_state(w, self.change));
            assert forall|c: int| 0 <= c < d implies #[trigger] self.state_at(s0, t)[c] as int
                == landing(self.ranges, self.wrap, xi, self.change, t as int)[c]
                + self.change[c] by {
                assert(self.ranges[c] <= isize::MAX);
                assert(0 <= w[c] < self.ranges[c]);
                assert(isize_ints(w)[c] == w[c] as int);
            }
        }
    }

    /// Where every round before round `t` from the vertex `x` added an arc,
    /// round `t` adds one exactly where the landing of `t + 1` steps is on
    /// the board and, for a riding piece, is not `x` again; its wrapped state
    /// is then that landing.
    pub proof fn lemma_round_adds(self, x: Seq<isize>, t: nat, order: nat)
        requires
            self.board_fits(order),
            self.prior == x,
            x.len() == self.ranges.len(),
            forall|c: int| 0 <= c < x.len() ==> 0 <= #[trigger] x[c] < self.ranges[c],
            forall|j: nat| j < t ==> self.adds_arc(#[trigger] self.state_at(moved_state(x, self.change), j)),
        ensures
            self.adds_arc(self.state_at(moved_state(x, self.change), t)) <==> on_board(
                self.ranges,
                self.wrap,
                isize_ints(x),
                self.change,
                (t + 1) as int,
            ) && !(self.piece < 0 && landing(
                self.ranges,
                self.wrap,
                isize_ints(x),
                self.change,
                (t + 1) as int,
            ) == isize_ints(x)),
    {
        let d = self.ranges.len();
        let s0 = moved_state(x, self.change);
        let xi = isize_ints(x);
        let st = self.state_at(s0, t);
        self.lemma_round_state(x, t, order);
        assert(wrapped_len(st, self.ranges, self.wrap) == d);
        lemma_wrapped_all(st, self.ranges, self.wrap, d);
        lemma_wrapped_prefix_on_board(st, self.ranges, self.wrap, d);
        let l1 = landing(self.ranges, self.wrap, xi, self.change, (t + 1) as int);
        let lt = landing(self.ranges, self.wrap, xi, self.change, t as int);
        assert forall|c: int| 0 <= c < d implies #[trigger] st[c] as int == (if self.wrap[c] {
            lt[c]
        } else {
            stepped(xi, self.change, (t + 1) as int, c)
        }) + (if self.wrap[c] {
            self.change[c] as int
        } else {
            0
        }) by {
            let dc = self.change[c] as int;
            assert(t * dc + dc == (t + 1) * dc) by (nonlinear_arith);
        }
        let all = wrapped_state(st, self.ranges, self.wrap).1;
        assert(all <==> on_board(self.ranges, self.wrap, xi, self.change, (t + 1) as int)) by {
            if all {
                assert forall|c: int|
                    0 <= c < d && !self.wrap[c] implies 0 <= #[trigger] stepped(
                    xi,
                    self.change,
                    (t + 1) as int,
                    c,
                ) < self.ranges[c] by {
                    assert(self.wrap[c] || (0 <= st[c] && st[c] < self.ranges[c]));
                }
            }
            if on_board(self.ranges, self.wrap, xi, self.change, (t + 1) as int) {
                assert forall|c: int| 0 <= c < d implies #[trigger] self.wrap[c] || (0 <= st[c]
                    && st[c] < self.ranges[c]) by {
                    if !self.wrap[c] {
                        assert(0 <= stepped(xi, self.change, (t + 1) as int, c) < self.ranges[c]);
                    }
                }
            }
        }
        if all {
            let w = wrapped_state(st, self.ranges, self.wrap).0;
            assert forall|c: int| 0 <= c < d implies #[trigger] isize_ints(w)[c] == l1[c] by {
                let m = self.ranges[c] as int;
                let dc = self.change[c] as int;
                assert(isize_ints(w)[c] == w[c] as int);
                assert(t * dc + dc == (t + 1) * dc) by (nonlinear_arith);
                if self.wrap[c] {
                    vstd::arithmetic::div_mod::lemma_add_mod_noop_right(
                        dc,
                        stepped(xi, self.change, t as int, c),
                        m,
                    );
                    assert(dc + stepped(xi, self.change, t as int, c) == stepped(
                        xi,
                        self.change,
                        (t + 1) as int,
                        c,
                    ));
                }
            }
            assert(isize_ints(w) =~= l1);
            if w == x {
                assert(isize_ints(w) == xi);
            }
            if l1 == xi {
                assert(isize_ints(w) =~= isize_ints(x));
                assert forall|c: int| 0 <= c < d implies w[c] == x[c] by {
                    assert(isize_ints(w)[c] == isize_ints(x)[c]);
                }
                assert(w =~= x);
            }
        }
    }
}

impl MoveRules {
    /// Where every round up to round `t` from the vertex `x` adds an arc
    /// because every landing up to `t + 1` steps is reached, each does.
    pub proof fn lemma_reached_rounds_add(self, x: Seq<isize>, t: nat, order: nat)
        requires
            self.board_fits(order),
            self.prior == x,
            x.len() == self.ranges.len(),
            forall|c: int| 0 <= c < x.len() ==> 0 <= #[trigger] x[c] < self.ranges[c],
            reaches_by(self.ranges, self.wrap, self.piece, isize_ints(x), self.change, (t + 1) as int),
        ensures
            forall|j: nat| j <= t ==> self.adds_arc(#[trigger] self.state_at(moved_state(x, self.change), j)),
        decreases t,
    {
        if t > 0 {
            self.lemma_reached_rounds_add(x, (t - 1) as nat, order);
        }
        self.lemma_round_adds(x, t, order);
        assert(on_board(self.ranges, self.wrap, isize_ints(x), self.change, (t + 1) as int));
    }

    /// Round `t` from the vertex `x` is one of those that add an arc exactly
    /// where the piece reaches the landing of `t + 1` steps.
    pub proof fn lemma_counted_reaches(self, x: Seq<isize>, t: nat, order: nat)
        requires
            self.board_fits(order),
            self.prior == x,
            x.len() == self.ranges.len(),
            forall|c: int| 0 <= c < x.len() ==> 0 <= #[trigger] x[c] < self.ranges[c],
        ensures
            t < self.arc_count(moved_state(x, self.change)) <==> reaches_by(
                self.ranges,
                self.wrap,
                self.piece,
                isize_ints(x),
                self.change,
                (t + 1) as int,
            ),
    {
        let s0 = moved_state(x, self.change);
        let xi = isize_ints(x);
        if t < self.arc_count(s0) {
            assert forall|j: nat| j <= t implies self.adds_arc(#[trigger] self.state_at(s0, j)) by {
                self.lemma_counted_adds(s0, j);
            }
            self.lemma_counted_adds(s0, t);
            self.lemma_stop_from_at_least(s0, 0, usize::MAX as nat);
            assert forall|j: int| 1 <= j <= t + 1 implies #[trigger] on_board(
                self.ranges,
                self.wrap,
                xi,
                self.change,
                j,
            ) && !(self.piece < 0 && landing(self.ranges, self.wrap, xi, self.change, j) == xi) by {
                assert forall|i: nat| i < (j - 1) as nat implies self.adds_arc(
                    #[trigger] self.state_at(s0, i),
                ) by {}
                self.lemma_round_adds(x, (j - 1) as nat, order);
                assert(self.adds_arc(self.state_at(s0, (j - 1) as nat)));
            }
        }
        if reaches_by(self.ranges, self.wrap, self.piece, xi, self.change, (t + 1) as int) {
            self.lemma_reached_rounds_add(x, t, order);
            assert forall|j: nat| j < t implies #[trigger] self.goes_on(self.state_at(s0, j)) by {
                assert(self.adds_arc(self.state_at(s0, j)));
            }
            self.lemma_arc_counted(s0, t);
        }
    }

    /// The tips of the moves from the vertex `u`, whose coordinates `x` are,
    /// are exactly the vertices of the board on which the piece lands by
    /// steps of the motion it reaches.
    pub proof fn lemma_tips_landings(self, x: Seq<isize>, u: nat, order: nat, v: int)
        requires
            self.board_fits(order),
            self.prior == x,
            x.len() == self.ranges.len(),
            forall|c: int| 0 <= c < x.len() ==> 0 <= #[trigger] x[c] < self.ranges[c],
            isize_ints(x) == coordinates(self.ranges, u),
            0 <= v < product(self.ranges),
        ensures
            self.tips(moved_state(x, self.change)).contains(v as usize) <==> exists|k: int|
                #[trigger] reaches_by(self.ranges, self.wrap, self.piece, isize_ints(x), self.change, k)
                    && coordinates(self.ranges, v as nat) == landing(
                    self.ranges,
                    self.wrap,
                    isize_ints(x),
                    self.change,
                    k,
                ),
    {
        let s0 = moved_state(x, self.change);
        let xi = isize_ints(x);
        let tips = self.tips(s0);
        if tips.contains(v as usize) {
            let t = choose|t: int| 0 <= t < tips.len() && tips[t] == v as usize;
            self.lemma_counted_reaches(x, t as nat, order);
            self.lemma_landing_tip(x, t as nat, order);
            assert(reaches_by(self.ranges, self.wrap, self.piece, xi, self.change, t + 1));
        }
        if exists|k: int|
            #[trigger] reaches_by(self.ranges, self.wrap, self.piece, xi, self.change, k)
                && coordinates(self.ranges, v as nat) == landing(
                self.ranges,
                self.wrap,
                xi,
                self.change,
                k,
            ) {
            let k = choose|k: int|
                #[trigger] reaches_by(self.ranges, self.wrap, self.piece, xi, self.change, k)
                    && coordinates(self.ranges, v as nat) == landing(
                    self.ranges,
                    self.wrap,
                    xi,
                    self.change,
                    k,
                );
            let t = (k - 1) as nat;
            self.lemma_counted_reaches(x, t, order);
            self.lemma_landing_tip(x, t, order);
            let w = tips[t as int];
            if w as int != v {
                lemma_coordinates_distinct(self.ranges, w as nat, v as nat);
            }
            assert(tips[t as int] == v as usize);
        }
    }

    /// The tip of a round that adds an arc is the vertex of the board whose
    /// coordinates are the landing of that many steps.
    pub proof fn lemma_landing_tip(self, x: Seq<isize>, t: nat, order: nat)
        requires
            self.board_fits(order),
            self.prior == x,
            x.len() == self.ranges.len(),
            forall|c: int| 0 <= c < x.len() ==> 0 <= #[trigger] x[c] < self.ranges[c],
            t < self.arc_count(moved_state(x, self.change)),
        ensures
            self.tips(moved_state(x, self.change))[t as int] < product(self.ranges),
            coordinates(self.ranges, self.tips(moved_state(x, self.change))[t as int] as nat)
                == landing(self.ranges, self.wrap, isize_ints(x), self.change, (t + 1) as int),
    {
        let s0 = moved_state(x, self.change);
        assert forall|j: nat| j <= t implies self.adds_arc(#[trigger] self.state_at(s0, j)) by {
            self.lemma_counted_adds(s0, j);
        }
        self.lemma_rounds_land(x, t, order);
        let w = wrapped_state(self.state_at(s0, t), self.ranges, self.wrap).0;
        lemma_index_coordinates(w, self.ranges);
        assert(isize_ints(w) =~= landing(
            self.ranges,
            self.wrap,
            isize_ints(x),
            self.change,
            (t + 1) as int,
        ));
    }
}

/// The moves from `src` to each of `tips` add an arc from `i` to `v` exactly
/// where `i` is `src` and `v` one of `tips`, or, for undirected moves, `v` is
/// `src` and `i` one of `tips`.
pub proof fn lemma_moves_tips_contains(src: usize, tips: Seq<usize>, directed: bool, i: int, v: usize)
    requires
        0 <= i <= usize::MAX,
    ensures
        moves_tips(src, tips, directed, i).contains(v) <==> (i == src && tips.contains(v)) || (
        !directed && v == src && 0 <= i && tips.contains(i as usize)),
    decreases tips.len(),
{
    if tips.len() > 0 {
        let a = moves_tips(src, tips.drop_last(), directed, i);
        let b = move_tips(src, tips.last(), directed, i);
        lemma_moves_tips_contains(src, tips.drop_last(), directed, i, v);
        assert(moves_tips(src, tips, directed, i) == a + b);
        if (a + b).contains(v) {
            let x = choose|x: int| 0 <= x < (a + b).len() && (a + b)[x] == v;
            if x < a.len() {
                assert(a[x] == v);
                if i == src && tips.drop_last().contains(v) {
                    let z = choose|z: int| 0 <= z < tips.drop_last().len() && tips.drop_last()[z] == v;
                    assert(tips[z] == v);
                }
                if !directed && v == src && 0 <= i && tips.drop_last().contains(i as usize) {
                    let z = choose|z: int|
                        0 <= z < tips.drop_last().len() && tips.drop_last()[z] == i as usize;
                    assert(tips[z] == i as usize);
                }
            } else {
                assert(b[x - a.len()] == v);
                assert(tips[tips.len() - 1] == tips.last());
            }
        }
        if (i == src && tips.contains(v)) || (!directed && v == src && 0 <= i && tips.contains(
            i as usize,
        )) {
            if i == src && tips.contains(v) {
                let z = choose|z: int| 0 <= z < tips.len() && tips[z] == v;
                if z < tips.len() - 1 {
                    assert(tips.drop_last()[z] == v);
                    let x = choose|x: int| 0 <= x < a.len() && a[x] == v;
                    assert((a + b)[x] == v);
                } else {
                    assert(b[0] == v);
                    assert((a + b)[a.len() as int] == v);
                }
            } else {
                let z = choose|z: int| 0 <= z < tips.len() && tips[z] == i as usize;
                if z < tips.len() - 1 {
                    assert(tips.drop_last()[z] == i as usize);
                    let x = choose|x: int| 0 <= x < a.len() && a[x] == v;
                    assert((a + b)[x] == v);
                } else {
                    assert(tips.last() as int == i);
                    let k = if i == src { 1int } else { 0int };
                    assert(b[k] == v);
                    assert((a + b)[a.len() + k] == v);
                }
            }
        }
    }
}

/// A concatenation holds what either part holds.
pub proof fn lemma_contains_append<T>(a: Seq<T>, b: Seq<T>, v: T)
    ensures
        (a + b).contains(v) <==> a.contains(v) || b.contains(v),
{
    if (a + b).contains(v) {
        let x = choose|x: int| 0 <= x < (a + b).len() && (a + b)[x] == v;
        if x < a.len() {
            assert(a[x] == v);
        } else {
            assert(b[x - a.len()] == v);
        }
    }
    if a.contains(v) {
        let x = choose|x: int| 0 <= x < a.len() && a[x] == v;
        assert((a + b)[x] == v);
    }
    if b.contains(v) {
        let x = choose|x: int| 0 <= x < b.len() && b[x] == v;
        assert((a + b)[a.len() + x] == v);
    }
}

/// The moves of the first `n` vertices by a motion add an arc from `i` to
/// `v` exactly where the moves of one of them do.
pub proof fn lemma_sweep_tips_contains(
    sizes: Seq<usize>,
    wrap: Seq<bool>,
    piece: isize,
    directed: bool,
    del: Seq<isize>,
    n: nat,
    i: int,
    v: usize,
)
    ensures
        sweep_tips(sizes, wrap, piece, directed, del, n, i).contains(v) <==> exists|w: int|
            0 <= w < n && #[trigger] vertex_tips(sizes, wrap, piece, directed, del, w as nat, i).contains(
                v,
            ),
    decreases n,
{
    if n > 0 {
        let m = (n - 1) as nat;
        lemma_sweep_tips_contains(sizes, wrap, piece, directed, del, m, i, v);
        lemma_contains_append(
            sweep_tips(sizes, wrap, piece, directed, del, m, i),
            vertex_tips(sizes, wrap, piece, directed, del, m, i),
            v,
        );
        if exists|w: int|
            0 <= w < n && #[trigger] vertex_tips(sizes, wrap, piece, directed, del, w as nat, i).contains(
                v,
            ) {
            let w = choose|w: int|
                0 <= w < n && #[trigger] vertex_tips(
                    sizes,
                    wrap,
                    piece,
                    directed,
                    del,
                    w as nat,
                    i,
                ).contains(v);
            if w < m {
                assert(0 <= w < m && vertex_tips(sizes, wrap, piece, directed, del, w as nat, i).contains(v));
            }
        }
    }
}

/// The moves of the first `n` vertices by each of `dels` add an arc from `i`
/// to `v` exactly where those by one of them do.
pub proof fn lemma_motions_tips_contains(
    sizes: Seq<usize>,
    wrap: Seq<bool>,
    piece: isize,
    directed: bool,
    dels: Seq<Seq<isize>>,
    n: nat,
    i: int,
    v: usize,
)
    ensures
        motions_tips(sizes, wrap, piece, directed, dels, n, i).contains(v) <==> exists|q: int|
            0 <= q < dels.len() && #[trigger] sweep_tips(sizes, wrap, piece, directed, dels[q], n, i).contains(
                v,
            ),
    decreases dels.len(),
{
    if dels.len() > 0 {
        let front = dels.drop_last();
        lemma_motions_tips_contains(sizes, wrap, piece, directed, front, n, i, v);
        lemma_contains_append(
            motions_tips(sizes, wrap, piece, directed, front, n, i),
            sweep_tips(sizes, wrap, piece, directed, dels.last(), n, i),
            v,
        );
        if exists|q: int|
            0 <= q < dels.len() && #[trigger] sweep_tips(sizes, wrap, piece, directed, dels[q], n, i).contains(
                v,
            ) {
            let q = choose|q: int|
                0 <= q < dels.len() && #[trigger] sweep_tips(
                    sizes,
                    wrap,
                    piece,
                    directed,
                    dels[q],
                    n,
                    i,
                ).contains(v);
            if q < dels.len() - 1 {
                assert(front[q] == dels[q]);
                assert(sweep_tips(sizes, wrap, piece, directed, front[q], n, i).contains(v));
            } else {
                assert(dels.last() == dels[q]);
            }
        }
        if exists|q: int|
            0 <= q < front.len() && #[trigger] sweep_tips(sizes, wrap, piece, directed, front[q], n, i).contains(
                v,
            ) {
            let q = choose|q: int|
                0 <= q < front.len() && #[trigger] sweep_tips(
                    sizes,
                    wrap,
                    piece,
                    directed,
                    front[q],
                    n,
                    i,
                ).contains(v);
            assert(front[q] == dels[q]);
            assert(sweep_tips(sizes, wrap, piece, directed, dels[q], n, i).contains(v));
        }
    }
}

/// The piece on the vertex `u` of a board of `sizes` lands on the vertex `v`
/// by `k` steps of the motion `tau`: `tau` has a component per dimension, its
/// squares sum to `|piece|`, its first nonzero component is positive, and
/// the piece reaches the landing of `k` steps of it.
pub open spec fn board_move(
    sizes: Seq<usize>,
    wrap: isize,
    piece: isize,
    u: nat,
    v: nat,
    tau: Seq<isize>,
    k: int,
) -> bool {
    let d = sizes.len();
    let bits = wrap_bits(wrap, d);
    &&& tau.len() == d
    &&& sum_squares(tau, d) == magnitude_of(piece)
    &&& leads_positive(tau)
    &&& reaches_by(sizes, bits, piece, coordinates(sizes, u), tau, k)
    &&& coordinates(sizes, v) == landing(sizes, bits, coordinates(sizes, u), tau, k)
}

/// The piece on the vertex `u` lands on the vertex `v` by some move.
pub open spec fn board_step(sizes: Seq<usize>, wrap: isize, piece: isize, u: nat, v: nat) -> bool {
    exists|tau: Seq<isize>, k: int| #[trigger] board_move(sizes, wrap, piece, u, v, tau, k)
}

/// The room a board leaves for the moves of a piece: the sizes are positive
/// and their product fits in an `isize`, `|piece|` is below `isize::MAX`,
/// and a coordinate moved by a motion component fits in an `isize`.
pub open spec fn board_room(sizes: Seq<usize>, piece: isize) -> bool {
    &&& sizes.len() >= 1
    &&& all_positive(sizes)
    &&& product(sizes) <= isize::MAX
    &&& forall|c: int| 0 <= c < sizes.len() ==> #[trigger] sizes[c] <= isize::MAX
    &&& piece != 0
    &&& -isize::MAX < piece < isize::MAX
    &&& motions_fit(sizes, magnitude_of(piece))
}

/// The coordinates of a vertex, as machine integers, are its coordinates.
pub proof fn lemma_coords_isize_ints(sizes: Seq<usize>, u: nat)
    requires
        all_positive(sizes),
        u < product(sizes),
        forall|c: int| 0 <= c < sizes.len() ==> #[trigger] sizes[c] <= isize::MAX,
    ensures
        isize_ints(coords_isize(sizes, u)) == coordinates(sizes, u),
        coords_isize(sizes, u).len() == sizes.len(),
        forall|c: int|
            0 <= c < sizes.len() ==> 0 <= #[trigger] coords_isize(sizes, u)[c] < sizes[c],
{
    lemma_coordinates_value(sizes, u);
    let x = coords_isize(sizes, u);
    assert forall|c: int| 0 <= c < sizes.len() implies isize_ints(x)[c] == coordinates(sizes, u)[c]
        && 0 <= #[trigger] x[c] < sizes[c] by {
        assert(0 <= coordinates(sizes, u)[c] < sizes[c]);
    }
    assert(isize_ints(x) =~= coordinates(sizes, u));
}

/// The moves from the vertex `w` by a motion `tau` of a board add an arc to
/// the vertex `v` exactly where the piece on `w` lands on `v` by steps of
/// `tau`.
pub proof fn lemma_motion_tips_moves(
    sizes: Seq<usize>,
    wrap: isize,
    piece: isize,
    tau: Seq<isize>,
    w: nat,
    v: nat,
)
    requires
        board_room(sizes, piece),
        tau.len() == sizes.len(),
        sum_squares(tau, sizes.len()) == magnitude_of(piece),
        leads_positive(tau),
        w < product(sizes),
        v < product(sizes),
    ensures
        move_rules(sizes, wrap_bits(wrap, sizes.len()), coords_isize(sizes, w), tau, piece).tips(
            moved_state(coords_isize(sizes, w), tau),
        ).contains(v as usize) <==> exists|k: int| #[trigger]
            board_move(sizes, wrap, piece, w, v, tau, k),
{
    let d = sizes.len();
    let p = magnitude_of(piece);
    let x = coords_isize(sizes, w);
    let rules = move_rules(sizes, wrap_bits(wrap, d), x, tau, piece);
    lemma_coords_isize_ints(sizes, w);
    assert forall|c: int| 0 <= c < d implies {
        &&& #[trigger] sizes[c] + tau[c] <= isize::MAX
        &&& sizes[c] - tau[c] <= isize::MAX
    } by {
        lemma_sum_squares_monotone(tau, c as nat, d);
        lemma_sum_squares_monotone(tau, 0, c as nat);
        let t = tau[c] as int;
        let m = if t < 0 { -t } else { t };
        assert(m * m == t * t) by (nonlinear_arith)
            requires
                m == t || m == -t,
        ;
        assert(motion_fits(sizes[c], p, m));
    }
    assert(rules.board_fits(product(sizes) as nat));
    rules.lemma_tips_landings(x, w, product(sizes) as nat, v as int);
    if exists|k: int| #[trigger] board_move(sizes, wrap, piece, w, v, tau, k) {
        let k = choose|k: int| #[trigger] board_move(sizes, wrap, piece, w, v, tau, k);
        assert(reaches_by(sizes, wrap_bits(wrap, d), piece, isize_ints(x), tau, k));
    }
    if rules.tips(moved_state(x, tau)).contains(v as usize) {
        let k = choose|k: int|
            #[trigger] reaches_by(sizes, wrap_bits(wrap, d), piece, isize_ints(x), tau, k)
                && coordinates(sizes, v) == landing(sizes, wrap_bits(wrap, d), isize_ints(x), tau, k);
        assert(board_move(sizes, wrap, piece, w, v, tau, k));
    }
}

/// A motion whose squares sum to `|piece|` has no component `isize::MIN`.
pub proof fn lemma_motion_above_min(tau: Seq<isize>, p: int)
    requires
        sum_squares(tau, tau.len()) == p,
        p < isize::MAX,
    ensures
        forall|j: int| 0 <= j < tau.len() ==> #[trigger] tau[j] > isize::MIN,
{
    assert forall|j: int| 0 <= j < tau.len() implies #[trigger] tau[j] > isize::MIN by {
        lemma_sum_squares_monotone(tau, j as nat, tau.len());
        lemma_sum_squares_monotone(tau, 0, j as nat);
        let t = tau[j] as int;
        assert(t <= -1 ==> -t <= t * t) by (nonlinear_arith);
    }
}

/// The arcs of a board: the board of `sizes` gets an arc from the vertex `i`
/// to the vertex `v` exactly where the piece on `i` lands on `v` by a move,
/// or, on an undirected board, the piece on `v` lands on `i` by one.
pub proof fn lemma_board_tips_moves(
    sizes: Seq<usize>,
    wrap: isize,
    piece: isize,
    directed: bool,
    i: nat,
    v: nat,
)
    requires
        board_room(sizes, piece),
        i < product(sizes),
        v < product(sizes),
    ensures
        board_tips(sizes, wrap, piece, directed, product(sizes) as nat, i as int).contains(v as usize)
            <==> board_step(sizes, wrap, piece, i, v) || (!directed && board_step(
            sizes,
            wrap,
            piece,
            v,
            i,
        )),
{
    let d = sizes.len();
    let p = magnitude_of(piece);
    let bits = wrap_bits(wrap, d);
    let n = product(sizes) as nat;
    let dels = board_motions(p, d);
    let ii = i as int;
    let vv = v as usize;
    lemma_motions_tips_contains(sizes, bits, piece, directed, dels, n, ii, vv);
    if board_tips(sizes, wrap, piece, directed, n, ii).contains(vv) {
        let q = choose|q: int|
            0 <= q < dels.len() && #[trigger] sweep_tips(sizes, bits, piece, directed, dels[q], n, ii).contains(
                vv,
            );
        let tau = dels[q];
        lemma_board_motions_sound(p, d, q);
        lemma_sweep_tips_contains(sizes, bits, piece, directed, tau, n, ii, vv);
        let w = choose|w: int|
            0 <= w < n && #[trigger] vertex_tips(sizes, bits, piece, directed, tau, w as nat, ii).contains(
                vv,
            );
        let x = coords_isize(sizes, w as nat);
        let tips = move_rules(sizes, bits, x, tau, piece).tips(moved_state(x, tau));
        lemma_moves_tips_contains(w as usize, tips, directed, ii, vv);
        if ii == w && tips.contains(vv) {
            lemma_motion_tips_moves(sizes, wrap, piece, tau, i, v);
            let k = choose|k: int| #[trigger] board_move(sizes, wrap, piece, i, v, tau, k);
            assert(board_step(sizes, wrap, piece, i, v));
        } else {
            assert(!directed && vv == w as usize && tips.contains(ii as usize));
            assert(v == w);
            lemma_motion_tips_moves(sizes, wrap, piece, tau, v, i);
            let k = choose|k: int| #[trigger] board_move(sizes, wrap, piece, v, i, tau, k);
            assert(board_step(sizes, wrap, piece, v, i));
        }
    }
    if board_step(sizes, wrap, piece, i, v) {
        let (tau, k) = choose|tau: Seq<isize>, k: int| #[trigger]
            board_move(sizes, wrap, piece, i, v, tau, k);
        lemma_motion_above_min(tau, p);
        lemma_board_motions_complete(p, d, tau);
        let q = choose|q: int| 0 <= q < dels.len() && dels[q] == tau;
        lemma_motion_tips_moves(sizes, wrap, piece, tau, i, v);
        let x = coords_isize(sizes, i);
        let tips = move_rules(sizes, bits, x, tau, piece).tips(moved_state(x, tau));
        assert(tips.contains(vv));
        lemma_moves_tips_contains(i as usize, tips, directed, ii, vv);
        assert(moves_tips(i as usize, tips, directed, ii).contains(vv));
        assert(vertex_tips(sizes, bits, piece, directed, tau, ii as nat, ii).contains(vv));
        assert(dels[q] == tau);
        lemma_sweep_tips_contains(sizes, bits, piece, directed, tau, n, ii, vv);
        assert(sweep_tips(sizes, bits, piece, directed, dels[q], n, ii).contains(vv));
    }
    if !directed && board_step(sizes, wrap, piece, v, i) {
        let (tau, k) = choose|tau: Seq<isize>, k: int| #[trigger]
            board_move(sizes, wrap, piece, v, i, tau, k);
        lemma_motion_above_min(tau, p);
        lemma_board_motions_complete(p, d, tau);
        let q = choose|q: int| 0 <= q < dels.len() && dels[q] == tau;
        lemma_motion_tips_moves(sizes, wrap, piece, tau, v, i);
        let x = coords_isize(sizes, v);
        let tips = move_rules(sizes, bits, x, tau, piece).tips(moved_state(x, tau));
        assert(tips.contains(ii as usize));
        lemma_moves_tips_contains(v as usize, tips, directed, ii, vv);
        assert(moves_tips(v as usize, tips, directed, ii).contains(vv));
        let wv = v as int;
        assert(0 <= wv < n && vertex_tips(sizes, bits, piece, directed, tau, wv as nat, ii).contains(vv));
        assert(dels[q] == tau);
        lemma_sweep_tips_contains(sizes, bits, piece, directed, tau, n, ii, vv);
        assert(sweep_tips(sizes, bits, piece, directed, dels[q], n, ii).contains(vv));
    }
}

/// Each size of a board of positive sizes is at most their product, which
/// is positive.
pub proof fn lemma_sizes_below_product(sizes: Seq<usize>)
    requires
        all_positive(sizes),
    ensures
        product(sizes) >= 1,
        forall|c: int| 0 <= c < sizes.len() ==> #[trigger] sizes[c] <= product(sizes),
    decreases sizes.len(),
{
    if sizes.len() > 0 {
        let front = sizes.drop_last();
        lemma_sizes_below_product(front);
        let a = product(front);
        let b = sizes.last() as int;
        assert(a <= a * b && b <= a * b) by (nonlinear_arith)
            requires
                a >= 1,
                b >= 1,
        ;
        assert forall|c: int| 0 <= c < sizes.len() implies #[trigger] sizes[c] <= product(sizes) by {
            if c < sizes.len() - 1 {
                assert(front[c] == sizes[c]);
            }
        }
    }
}

/// The arcs of a generated board: the vertex `u` has an arc to the vertex
/// `v` exactly where the piece on `u` lands on `v` by a move of squared
/// length `|piece|`, once or, for a rider, repeated, with the components
/// that `wrap` names wrapping around; on an undirected board also where the
/// piece on `v` lands on `u` by such a move.
pub proof fn lemma_board_arcs(
    g: crate::backend::Graph,
    n1: isize,
    n2: isize,
    n3: isize,
    n4: isize,
    piece: isize,
    wrap: isize,
    directed: bool,
    u: int,
    v: int,
)
    requires
        is_board(g, n1, n2, n3, n4, piece, wrap, directed),
        board_admissible(n1, n2, n3, n4, piece, wrap),
        piece != 0,
        0 <= u < g.vertices@.len(),
        0 <= v < g.vertices@.len(),
    ensures
        arc_tips(g.vertices@[u]).contains(v as usize) <==> board_step(
            normalized_sizes(n1, n2, n3, n4),
            wrap,
            piece,
            u as nat,
            v as nat,
        ) || (!directed && board_step(
            normalized_sizes(n1, n2, n3, n4),
            wrap,
            piece,
            v as nat,
            u as nat,
        )),
{
    let sizes = normalized_sizes(n1, n2, n3, n4);
    let n = g.vertices@.len();
    lemma_normalized_sizes_positive(n1, n2, n3, n4);
    lemma_sizes_below_product(sizes);
    assert(board_room(sizes, piece));
    let tu = board_tips(sizes, wrap, piece, directed, n, u);
    assert(arcs_exactly(g.vertices@[u], tu));
    assert forall|j: int| 0 <= j < tu.len() implies arc_tips(g.vertices@[u])[j] == tu[j] by {
        assert(g.vertices@[u].arcs@[j].is_fresh_to(tu[j]));
    }
    assert(arc_tips(g.vertices@[u]) =~= tu);
    lemma_board_tips_moves(sizes, wrap, piece, directed, u as nat, v as nat);
}

} // verus!
