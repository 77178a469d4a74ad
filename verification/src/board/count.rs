//! How many arcs a board has from one vertex to another.
use vstd::prelude::*;

use crate::board::enumeration::{
    leads_positive, lemma_board_motions_complete, lemma_board_motions_distinct,
    lemma_board_motions_sound,
};
use crate::board::landing::{
    board_move, board_room, landing, lemma_coords_isize_ints, lemma_motion_above_min,
    lemma_motion_tips_moves, lemma_sizes_below_product, on_board, reaches_by, stepped,
};
use crate::board::moves::{move_rules, move_tips, moved_state, moves_tips};
use crate::board::{
    arc_tips, arcs_exactly, bit_weight, lemma_bit_weight_positive, motion_fits, board_admissible, board_motions, board_tips, coordinates,
    coords_isize, is_board, lemma_coordinates_value, lemma_normalized_sizes_positive,
    lemma_sum_squares_monotone, lemma_sum_squares_signs, lemma_tip_count_append,
    lemma_tip_count_single, magnitude_of, motions_tips, normalized_sizes, product, sum_squares,
    sweep_tips, tip_count, vertex_tips, wrap_bits, wraps,
};

verus! {

/// The tips that the moves of `src` to `dst` add at the vertex `i` count `v`
/// once where the arc goes from `i` to `v`, either way on an undirected board.
pub proof fn lemma_move_tips_count(src: usize, dst: usize, directed: bool, i: int, v: int)
    ensures
        tip_count(move_tips(src, dst, directed, i), v) == (if i == src && dst as int == v {
            1nat
        } else {
            0nat
        }) + (if !directed && v == src && dst as int == i {
            1nat
        } else {
            0nat
        }),
{
    let e = Seq::<usize>::empty();
    assert(tip_count(e, v) == 0);
    lemma_tip_count_single(dst, v);
    lemma_tip_count_single(src, v);
    let a = if i == src { seq![dst] } else { e };
    let b = if !directed && i == dst { seq![src] } else { e };
    lemma_tip_count_append(a, b, v);
}

/// The moves from `src` to each of `tips` add at the vertex `i` as many arcs
/// to `v` as `tips` names `v`, where `i` is `src`, and, on an undirected
/// board, as many as `tips` names `i`, where `v` is `src`.
pub proof fn lemma_moves_tips_count(src: usize, tips: Seq<usize>, directed: bool, i: int, v: int)
    ensures
        tip_count(moves_tips(src, tips, directed, i), v) == (if i == src {
            tip_count(tips, v)
        } else {
            0nat
        }) + (if !directed && v == src {
            tip_count(tips, i)
        } else {
            0nat
        }),
    decreases tips.len(),
{
    if tips.len() > 0 {
        lemma_moves_tips_count(src, tips.drop_last(), directed, i, v);
        lemma_move_tips_count(src, tips.last(), directed, i, v);
        lemma_tip_count_append(
            moves_tips(src, tips.drop_last(), directed, i),
            move_tips(src, tips.last(), directed, i),
            v,
        );
    }
}

/// The tips of the moves of the vertex `w` of a board by the motion `del`.
pub open spec fn motion_tips(
    sizes: Seq<usize>,
    wrap: Seq<bool>,
    piece: isize,
    del: Seq<isize>,
    w: nat,
) -> Seq<usize> {
    let x = coords_isize(sizes, w);
    move_rules(sizes, wrap, x, del, piece).tips(moved_state(x, del))
}

/// The moves of the first `n` vertices by a motion add at the vertex `i` as
/// many arcs to `v` as the moves of `i` reach `v`, and, on an undirected
/// board, as many as the moves of `v` reach `i`.
pub proof fn lemma_sweep_tips_count(
    sizes: Seq<usize>,
    wrap: Seq<bool>,
    piece: isize,
    directed: bool,
    del: Seq<isize>,
    n: nat,
    i: int,
    v: int,
)
    requires
        n <= usize::MAX,
    ensures
        tip_count(sweep_tips(sizes, wrap, piece, directed, del, n, i), v) == (if 0 <= i < n {
            tip_count(motion_tips(sizes, wrap, piece, del, i as nat), v)
        } else {
            0nat
        }) + (if !directed && 0 <= v < n {
            tip_count(motion_tips(sizes, wrap, piece, del, v as nat), i)
        } else {
            0nat
        }),
    decreases n,
{
    if n > 0 {
        let w = (n - 1) as nat;
        lemma_sweep_tips_count(sizes, wrap, piece, directed, del, w, i, v);
        lemma_moves_tips_count(
            w as usize,
            motion_tips(sizes, wrap, piece, del, w),
            directed,
            i,
            v,
        );
        lemma_tip_count_append(
            sweep_tips(sizes, wrap, piece, directed, del, w, i),
            vertex_tips(sizes, wrap, piece, directed, del, w, i),
            v,
        );
    }
}

/// The number of times `x` occurs in `s`.
pub open spec fn occurrences(s: Seq<Seq<isize>>, x: Seq<isize>) -> nat
    decreases s.len(),
{
    if s.len() == 0 {
        0
    } else {
        occurrences(s.drop_last(), x) + if s.last() == x {
            1nat
        } else {
            0nat
        }
    }
}

/// A sequence without duplicates holds what it holds once.
pub proof fn lemma_occurrences_distinct(s: Seq<Seq<isize>>, x: Seq<isize>)
    requires
        s.no_duplicates(),
    ensures
        occurrences(s, x) == if s.contains(x) {
            1nat
        } else {
            0nat
        },
    decreases s.len(),
{
    if s.len() > 0 {
        let f = s.drop_last();
        assert(f.no_duplicates()) by {
            assert forall|a: int, b: int| 0 <= a < b < f.len() implies f[a] != f[b] by {
                assert(f[a] == s[a] && f[b] == s[b]);
            }
        }
        lemma_occurrences_distinct(f, x);
        if f.contains(x) {
            let k = choose|k: int| 0 <= k < f.len() && f[k] == x;
            assert(s[k] == x);
            assert(s[s.len() - 1] == s.last());
        }
        if s.contains(x) && !f.contains(x) {
            let k = choose|k: int| 0 <= k < s.len() && s[k] == x;
            if k < s.len() - 1 {
                assert(f[k] == x);
            }
        }
        if f.contains(x) {
            let k = choose|k: int| 0 <= k < f.len() && f[k] == x;
            assert(s[k] == x);
        }
    }
}

/// No component of a board wraps around where `wrap` is zero.
pub proof fn lemma_no_wrap(d: nat)
    ensures
        forall|c: int| 0 <= c < d ==> !#[trigger] wrap_bits(0, d)[c],
{
    assert forall|c: int| 0 <= c < d implies !#[trigger] wrap_bits(0, d)[c] by {
        let k = c as nat;
        lemma_bit_weight_positive(k);
        vstd::arithmetic::div_mod::lemma_div_of0(bit_weight(k) as int);
        assert(!wraps(0, k));
    }
}

/// The offset from the vertex `w` of a board to the vertex `v`: the
/// difference of their coordinates.
pub open spec fn offset(sizes: Seq<usize>, w: nat, v: nat) -> Seq<isize> {
    Seq::new(
        sizes.len(),
        |c: int| (coordinates(sizes, v)[c] - coordinates(sizes, w)[c]) as isize,
    )
}

/// The moves of a vertex by a motion, for a piece that does not ride, add at
/// most one arc.
pub proof fn lemma_step_tips_short(sizes: Seq<usize>, wrap: isize, piece: isize, tau: Seq<isize>, w: nat)
    requires
        board_room(sizes, piece),
        piece > 0,
        tau.len() == sizes.len(),
        sum_squares(tau, sizes.len()) == magnitude_of(piece),
        w < product(sizes),
    ensures
        motion_tips(sizes, wrap_bits(wrap, sizes.len()), piece, tau, w).len() <= 1,
{
    let d = sizes.len();
    let p = magnitude_of(piece);
    let x = coords_isize(sizes, w);
    let rules = move_rules(sizes, wrap_bits(wrap, d), x, tau, piece);
    lemma_coords_isize_ints(sizes, w);
    assert forall|c: int| 0 <= c < d implies {
        &&& #[trigger] sizes[c] + tau[c] <= isize::MAX
        &&& sizes[c] - tau[c] <= isize::MAX
    } by {
        lemma_sum_squares_monotone(tau, c as nat, d);
        lemma_sum_squares_monotone(tau, 0, c as nat);
        let t = tau[c] as int;
        let m = if t < 0 { -t } else { t };
        assert(m * m == t * t) by (nonlinear_arith)
            requires
                m == t || m == -t,
        ;
        assert(motion_fits(sizes[c], p, m));
    }
    assert(rules.board_fits(product(sizes) as nat));
    if rules.arc_count(moved_state(x, tau)) > 1 {
        rules.lemma_counted_reaches(x, 1, product(sizes) as nat);
    }
}

/// The moves of the vertex `w` of a board where nothing wraps around, by a
/// motion of a piece that does not ride, reach the vertex `v` once where
/// the motion is the offset from `w` to `v`, and not otherwise.
pub proof fn lemma_step_tips_count(sizes: Seq<usize>, piece: isize, tau: Seq<isize>, w: nat, v: nat)
    requires
        board_room(sizes, piece),
        piece > 0,
        tau.len() == sizes.len(),
        sum_squares(tau, sizes.len()) == magnitude_of(piece),
        leads_positive(tau),
        w < product(sizes),
        v < product(sizes),
    ensures
        tip_count(motion_tips(sizes, wrap_bits(0, sizes.len()), piece, tau, w), v as int) == if tau
            == offset(sizes, w, v) {
            1nat
        } else {
            0nat
        },
{
    let d = sizes.len();
    let bits = wrap_bits(0, d);
    let tips = motion_tips(sizes, bits, piece, tau, w);
    let cw = coordinates(sizes, w);
    let cv = coordinates(sizes, v);
    lemma_no_wrap(d);
    lemma_coordinates_value(sizes, w);
    lemma_coordinates_value(sizes, v);
    lemma_step_tips_short(sizes, 0, piece, tau, w);
    lemma_motion_tips_moves(sizes, 0, piece, tau, w, v);
    if exists|k: int| #[trigger] board_move(sizes, 0, piece, w, v, tau, k) {
        let k = choose|k: int| #[trigger] board_move(sizes, 0, piece, w, v, tau, k);
        assert(k == 1);
        assert forall|c: int| 0 <= c < d implies #[trigger] tau[c] == offset(sizes, w, v)[c] by {
            assert(landing(sizes, bits, cw, tau, 1)[c] == cw[c] + tau[c]);
            assert(cv[c] == cw[c] + tau[c]);
        }
        assert(tau =~= offset(sizes, w, v));
    }
    if tau == offset(sizes, w, v) {
        assert forall|c: int| 0 <= c < d implies #[trigger] stepped(cw, tau, 1, c) == cv[c] by {
            assert(0 <= cw[c] < sizes[c] && 0 <= cv[c] < sizes[c]);
            assert(tau[c] == offset(sizes, w, v)[c]);
        }
        assert(on_board(sizes, bits, cw, tau, 1));
        assert(landing(sizes, bits, cw, tau, 1) =~= cv);
        assert(reaches_by(sizes, bits, piece, cw, tau, 1));
        assert(board_move(sizes, 0, piece, w, v, tau, 1));
    }
    if tips.len() == 1 {
        assert(tips =~= seq![tips[0]]);
        lemma_tip_count_single(tips[0], v as int);
        if tips.contains(v as usize) {
            let j = choose|j: int| 0 <= j < tips.len() && tips[j] == v as usize;
            assert(j == 0);
        }
    } else {
        assert(tips.len() == 0);
        assert(tips =~= Seq::<usize>::empty());
    }
}

/// The moves by each of `dels` of the vertices of a board where nothing wraps
/// around, for a piece that does not ride, add at the vertex `i` an arc to
/// `v` once for each time `dels` holds the offset from `i` to `v`, and, on an
/// undirected board, once for each time it holds the offset from `v` to `i`.
pub proof fn lemma_motions_tips_count(
    sizes: Seq<usize>,
    piece: isize,
    directed: bool,
    dels: Seq<Seq<isize>>,
    i: nat,
    v: nat,
)
    requires
        board_room(sizes, piece),
        piece > 0,
        forall|q: int|
            0 <= q < dels.len() ==> {
                &&& (#[trigger] dels[q]).len() == sizes.len()
                &&& sum_squares(dels[q], sizes.len()) == magnitude_of(piece)
                &&& leads_positive(dels[q])
            },
        i < product(sizes),
        v < product(sizes),
    ensures
        tip_count(
            motions_tips(
                sizes,
                wrap_bits(0, sizes.len()),
                piece,
                directed,
                dels,
                product(sizes) as nat,
                i as int,
            ),
            v as int,
        ) == occurrences(dels, offset(sizes, i, v)) + if directed {
            0nat
        } else {
            occurrences(dels, offset(sizes, v, i))
        },
    decreases dels.len(),
{
    if dels.len() > 0 {
        let d = sizes.len();
        let bits = wrap_bits(0, d);
        let n = product(sizes) as nat;
        let front = dels.drop_last();
        let last = dels.last();
        assert forall|q: int| 0 <= q < front.len() implies {
            &&& (#[trigger] front[q]).len() == sizes.len()
            &&& sum_squares(front[q], sizes.len()) == magnitude_of(piece)
            &&& leads_positive(front[q])
        } by {
            assert(front[q] == dels[q]);
        }
        assert(last == dels[dels.len() - 1]);
        lemma_motions_tips_count(sizes, piece, directed, front, i, v);
        lemma_sweep_tips_count(sizes, bits, piece, directed, last, n, i as int, v as int);
        lemma_step_tips_count(sizes, piece, last, i, v);
        lemma_step_tips_count(sizes, piece, last, v, i);
        lemma_tip_count_append(
            motions_tips(sizes, bits, piece, directed, front, n, i as int),
            sweep_tips(sizes, bits, piece, directed, last, n, i as int),
            v as int,
        );
    }
}

/// The offset back from `v` to `w` is the offset from `w` to `v` with its
/// signs changed.
pub proof fn lemma_offset_back(sizes: Seq<usize>, w: nat, v: nat)
    requires
        all_positive_below(sizes),
        w < product(sizes),
        v < product(sizes),
    ensures
        forall|c: int|
            0 <= c < sizes.len() ==> #[trigger] offset(sizes, v, w)[c] == -offset(sizes, w, v)[c],
        forall|c: int|
            0 <= c < sizes.len() ==> -isize::MAX <= #[trigger] offset(sizes, w, v)[c] <= isize::MAX,
{
    lemma_coordinates_value(sizes, w);
    lemma_coordinates_value(sizes, v);
    assert forall|c: int| 0 <= c < sizes.len() implies #[trigger] offset(sizes, v, w)[c] == -offset(
        sizes,
        w,
        v,
    )[c] && -isize::MAX <= offset(sizes, w, v)[c] <= isize::MAX by {
        assert(0 <= coordinates(sizes, w)[c] < sizes[c] <= isize::MAX);
        assert(0 <= coordinates(sizes, v)[c] < sizes[c]);
    }
}

/// Positive sizes that each fit in an `isize`.
pub open spec fn all_positive_below(sizes: Seq<usize>) -> bool {
    &&& crate::board::all_positive(sizes)
    &&& forall|c: int| 0 <= c < sizes.len() ==> #[trigger] sizes[c] <= isize::MAX
}

/// Where both a motion and the motion with its signs changed lead with a
/// positive component, the squares of the first `j` components sum to zero.
pub proof fn lemma_both_lead_zero(a: Seq<isize>, b: Seq<isize>, j: nat)
    requires
        a.len() == b.len(),
        j <= a.len(),
        forall|c: int| 0 <= c < a.len() ==> #[trigger] b[c] == -a[c],
        leads_positive(a),
        leads_positive(b),
    ensures
        sum_squares(a, j) == 0,
    decreases j,
{
    if j > 0 {
        let k = (j - 1) as nat;
        lemma_both_lead_zero(a, b, k);
        lemma_sum_squares_signs(b, a, k);
        assert(0 <= a[k as int] && 0 <= b[k as int]);
    }
}

/// Of a nonzero motion and the motion with its signs changed, exactly one
/// has a positive first nonzero component.
pub proof fn lemma_leads_one_way(a: Seq<isize>, b: Seq<isize>)
    requires
        a.len() == b.len(),
        forall|c: int| 0 <= c < a.len() ==> #[trigger] b[c] == -a[c],
        sum_squares(a, a.len()) != 0,
    ensures
        leads_positive(a) != leads_positive(b),
{
    if leads_positive(a) && leads_positive(b) {
        lemma_both_lead_zero(a, b, a.len());
    }
    if !leads_positive(a) && !leads_positive(b) {
        let j = choose|j: int|
            0 <= j < a.len() && sum_squares(a, j as nat) == 0 && !(0 <= #[trigger] a[j]);
        let l = choose|l: int|
            0 <= l < b.len() && sum_squares(b, l as nat) == 0 && !(0 <= #[trigger] b[l]);
        lemma_sum_squares_signs(b, a, l as nat);
        let x = a[j] as int;
        let y = a[l] as int;
        assert(x * x > 0) by (nonlinear_arith)
            requires
                x < 0,
        ;
        assert(y * y > 0) by (nonlinear_arith)
            requires
                y > 0,
        ;
        if j < l {
            lemma_sum_squares_monotone(a, j as nat, l as nat);
        } else if l < j {
            lemma_sum_squares_monotone(a, l as nat, j as nat);
        }
    }
}

/// The arc count of a board: on a board where nothing wraps around and the
/// piece does not ride, the vertex `u` has one arc to the vertex `v` where
/// the squares of the offset from `u` to `v` sum to `piece` and, on a
/// directed board, its first nonzero component is positive; and none
/// otherwise. On an undirected board, each edge is so stored once each way.
pub proof fn lemma_board_arc_count(
    g: crate::backend::Graph,
    n1: isize,
    n2: isize,
    n3: isize,
    n4: isize,
    piece: isize,
    directed: bool,
    u: int,
    v: int,
)
    requires
        is_board(g, n1, n2, n3, n4, piece, 0, directed),
        board_admissible(n1, n2, n3, n4, piece, 0),
        piece > 0,
        0 <= u < g.vertices@.len(),
        0 <= v < g.vertices@.len(),
    ensures
        tip_count(arc_tips(g.vertices@[u]), v) == if sum_squares(
            offset(normalized_sizes(n1, n2, n3, n4), u as nat, v as nat),
            normalized_sizes(n1, n2, n3, n4).len(),
        ) == piece && (!directed || leads_positive(
            offset(normalized_sizes(n1, n2, n3, n4), u as nat, v as nat),
        )) {
            1nat
        } else {
            0nat
        },
{
    let sizes = normalized_sizes(n1, n2, n3, n4);
    let d = sizes.len();
    let n = g.vertices@.len();
    let p = magnitude_of(piece);
    lemma_normalized_sizes_positive(n1, n2, n3, n4);
    lemma_sizes_below_product(sizes);
    assert(board_room(sizes, piece));
    let tu = board_tips(sizes, 0, piece, directed, n, u);
    assert(arcs_exactly(g.vertices@[u], tu));
    assert forall|j: int| 0 <= j < tu.len() implies arc_tips(g.vertices@[u])[j] == tu[j] by {
        assert(g.vertices@[u].arcs@[j].is_fresh_to(tu[j]));
    }
    assert(arc_tips(g.vertices@[u]) =~= tu);
    let dels = board_motions(p, d);
    assert forall|q: int| 0 <= q < dels.len() implies {
        &&& (#[trigger] dels[q]).len() == sizes.len()
        &&& sum_squares(dels[q], sizes.len()) == magnitude_of(piece)
        &&& leads_positive(dels[q])
    } by {
        lemma_board_motions_sound(p, d, q);
    }
    lemma_motions_tips_count(sizes, piece, directed, dels, u as nat, v as nat);
    lemma_board_motions_distinct(p, d);
    let fwd = offset(sizes, u as nat, v as nat);
    let back = offset(sizes, v as nat, u as nat);
    lemma_occurrences_distinct(dels, fwd);
    lemma_occurrences_distinct(dels, back);
    lemma_offset_back(sizes, u as nat, v as nat);
    lemma_sum_squares_signs(back, fwd, d);
    if dels.contains(fwd) {
        let q = choose|q: int| 0 <= q < dels.len() && dels[q] == fwd;
        assert(dels[q] == fwd);
    }
    if dels.contains(back) {
        let q = choose|q: int| 0 <= q < dels.len() && dels[q] == back;
        assert(dels[q] == back);
    }
    if sum_squares(fwd, d) == p {
        lemma_motion_above_min(fwd, p);
        lemma_motion_above_min(back, p);
        if leads_positive(fwd) {
            lemma_board_motions_complete(p, d, fwd);
        }
        if leads_positive(back) {
            lemma_board_motions_complete(p, d, back);
        }
        lemma_leads_one_way(fwd, back);
    }
}

} // verus!
