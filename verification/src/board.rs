//! The `board` generator: graphs whose vertices are the cells of a
//! d-dimensional board, named by their coordinates.
use vstd::prelude::*;

use crate::backend::vertex::Vertex;
use crate::backend::{as_usize, AllocErrorSrc, Graph, GraphCreationError, EXTRA_N};
use crate::decimal::{
    digits_value, is_digit, lemma_decimal_ordinary, lemma_signed_decimal_ordinary, signed_value,
};
use crate::decimal::{
    decimal, decimal_len, lemma_decimal_injective, lemma_decimal_len, lemma_decimal_no_dot,
    magnitude, push_decimal, push_signed_decimal, signed_decimal, signed_decimal_len,
};
use crate::fields::{bucket_items, padded, same_bucket, FieldsExtError};
use crate::num::NonZeroIsize;
use crate::reserve::reserve_room;

pub mod enumeration;
pub mod count;
pub mod landing;
pub mod moves;

use crate::board::moves::{
    index_prefix, vertex_index, wrapped_state, MoveRules,
    arcs_extended, arcs_grown, move_tips, vertex_extended, fresh_within, gen_moves, lemma_arcs_extended_congruent,
    lemma_arcs_extended_refl, lemma_arcs_extended_trans, index_len, lemma_arcs_extended_grown, lemma_arcs_grown_refl,
    lemma_arcs_grown_trans, lemma_moves_tips_within, move_fits, move_rules, moved_state,
    moves_tips, partial_move_tips, GenMovesError,
};

verus! {

/// Failure to lay out the component sizes of a board.
#[derive(Debug)]
pub enum NormalizationError {
    ComponentRangesAllocFailed,
}

/// `len` items that repeat `prefix` cyclically.
pub open spec fn cycled(prefix: Seq<usize>, len: nat) -> Seq<usize> {
    Seq::new(len, |i: int| prefix[i % (prefix.len() as int)])
}

/// The component sizes of the board `board(n1, n2, n3, n4, ..)`.
///
/// A first size that is not positive gives an 8 by 8 board. Otherwise the
/// sizes are those of the leading positive arguments, up to a zero; a
/// negative argument `-m` instead gives `m` sizes that repeat the leading
/// positive ones cyclically.
pub open spec fn normalized_sizes(n1: isize, n2: isize, n3: isize, n4: isize) -> Seq<usize> {
    if n1 <= 0 {
        seq![8usize, 8usize]
    } else if n2 == 0 {
        seq![n1 as usize]
    } else if n2 < 0 {
        cycled(seq![n1 as usize], (-n2) as nat)
    } else if n3 == 0 {
        seq![n1 as usize, n2 as usize]
    } else if n3 < 0 {
        cycled(seq![n1 as usize, n2 as usize], (-n3) as nat)
    } else if n4 == 0 {
        seq![n1 as usize, n2 as usize, n3 as usize]
    } else if n4 < 0 {
        cycled(seq![n1 as usize, n2 as usize, n3 as usize], (-n4) as nat)
    } else {
        seq![n1 as usize, n2 as usize, n3 as usize, n4 as usize]
    }
}

/// The size arguments of a board, in order.
pub open spec fn size_args(n1: isize, n2: isize, n3: isize, n4: isize) -> Seq<isize> {
    seq![n1, n2, n3, n4]
}

/// The component sizes of a board, by the number `k` of its leading positive
/// arguments: with none, an 8 by 8 board; where the arguments end or a zero
/// follows, those `k` arguments; where `-m` follows, `m` sizes that run
/// through the `k` arguments over and over.
pub proof fn lemma_normalized_sizes_rule(n1: isize, n2: isize, n3: isize, n4: isize, k: int)
    requires
        0 <= k <= 4,
        forall|j: int| 0 <= j < k ==> #[trigger] size_args(n1, n2, n3, n4)[j] > 0,
        k < 4 ==> size_args(n1, n2, n3, n4)[k] <= 0,
    ensures
        ({
            let args = size_args(n1, n2, n3, n4);
            let sizes = normalized_sizes(n1, n2, n3, n4);
            &&& k == 0 ==> sizes == seq![8usize, 8usize]
            &&& k > 0 && (k == 4 || args[k] == 0) ==> sizes.len() == k && forall|j: int|
                0 <= j < k ==> #[trigger] sizes[j] as int == args[j] as int
            &&& 0 < k < 4 && args[k] < 0 ==> sizes.len() == -args[k] && forall|i: int|
                0 <= i < sizes.len() ==> #[trigger] sizes[i] as int == args[i % k] as int
        }),
{
    let args = size_args(n1, n2, n3, n4);
    assert(args[0] == n1 && args[1] == n2 && args[2] == n3 && args[3] == n4);
    if k >= 1 {
        assert(n1 > 0);
    }
    if k >= 2 {
        assert(n2 > 0);
    }
    if k >= 3 {
        assert(n3 > 0);
    }
    if k == 4 {
        assert(n4 > 0);
    }
    let sizes = normalized_sizes(n1, n2, n3, n4);
    if 0 < k < 4 && args[k] < 0 {
        assert forall|i: int| 0 <= i < sizes.len() implies #[trigger] sizes[i] as int == args[i
            % k] as int by {
            assert(0 <= i % k < k);
        }
    }
}

/// Every component size is positive.
pub open spec fn all_positive(sizes: Seq<usize>) -> bool {
    forall|i: int| 0 <= i < sizes.len() ==> #[trigger] sizes[i] > 0
}

/// The first `k` arguments, as component sizes.
pub open spec fn leading_sizes(ns: Seq<isize>, k: nat) -> Seq<usize> {
    Seq::new(k, |i: int| ns[i] as usize)
}

/// Lays out the component sizes of a board, as `normalized_sizes` states.
///
/// Room for four sizes is reserved first, and room for `m` sizes when a
/// negative argument `-m` asks for them; either failing is an error.
pub fn normalize_board_size(n1: isize, n2: isize, n3: isize, n4: isize) -> (r: Result<
    Vec<usize>,
    NormalizationError,
>)
    ensures
        r matches Ok(v) ==> v@ == normalized_sizes(n1, n2, n3, n4),
        normalized_sizes(n1, n2, n3, n4).len() * vstd::layout::size_of::<usize>() > isize::MAX
            ==> r is Err,
{
    proof {
        broadcast use vstd::layout::layout_of_primitives;
        assert(vstd::layout::size_of::<usize>() * 8 == usize::BITS);
    }
    let ns: [isize; 4] = [n1, n2, n3, n4];
    let ghost nseq = seq![n1, n2, n3, n4];
    assert(ns@ == nseq);
    let mut components: Vec<usize> = Vec::new();
    if components.try_reserve(4).is_err() {
        return Err(NormalizationError::ComponentRangesAllocFailed);
    }
    let mut k: usize = 0;
    while k < 4
        invariant
            k <= 4,
            ns@ == nseq,
            nseq == seq![n1, n2, n3, n4],
            forall|j: int| 0 <= j < k ==> nseq[j] > 0,
            components@ == leading_sizes(nseq, k as nat),
            k == 4 ==> normalized_sizes(n1, n2, n3, n4) == leading_sizes(nseq, 4),
        decreases 4 - k,
    {
        let component = ns[k];
        assert(nseq[0] == n1 && nseq[1] == n2 && nseq[2] == n3 && nseq[3] == n4);
        assert(component == nseq[k as int]);
        if component <= 0 && k == 0 {
            components.push(8);
            components.push(8);
            proof {
                assert(k == 0 && n1 <= 0);
            }
            assert(components@ =~= normalized_sizes(n1, n2, n3, n4));
            return Ok(components);
        } else if component < 0 {
            components.clear();
            let m = magnitude(component);
            if reserve_room(&mut components, m).is_err() {
                return Err(NormalizationError::ComponentRangesAllocFailed);
            }
            let ghost prefix = leading_sizes(nseq, k as nat);
            let mut i: usize = 0;
            while i < m
                invariant
                    0 < k < 4,
                    i <= m,
                    ns@ == nseq,
                    prefix == leading_sizes(nseq, k as nat),
                    forall|j: int| 0 <= j < k ==> nseq[j] > 0,
                    components@ == cycled(prefix, i as nat),
                decreases m - i,
            {
                let c = ns[i % k] as usize;
                components.push(c);
                assert(components@ =~= cycled(prefix, (i + 1) as nat));
                i = i + 1;
            }
            proof {
                if k == 1 {
                    assert(prefix =~= seq![n1 as usize]);
                } else if k == 2 {
                    assert(prefix =~= seq![n1 as usize, n2 as usize]);
                } else {
                    assert(prefix =~= seq![n1 as usize, n2 as usize, n3 as usize]);
                }
            }
            assert(normalized_sizes(n1, n2, n3, n4) =~= cycled(prefix, m as nat));
            return Ok(components);
        } else if component == 0 {
            proof {
                if k == 1 {
                    assert(components@ =~= seq![n1 as usize]);
                } else if k == 2 {
                    assert(components@ =~= seq![n1 as usize, n2 as usize]);
                } else {
                    assert(components@ =~= seq![n1 as usize, n2 as usize, n3 as usize]);
                }
            }
            assert(components@ =~= normalized_sizes(n1, n2, n3, n4));
            return Ok(components);
        } else {
            components.push(component as usize);
            assert(components@ =~= leading_sizes(nseq, (k + 1) as nat));
        }
        k = k + 1;
    }
    assert(components@ =~= normalized_sizes(n1, n2, n3, n4));
    Ok(components)
}

/// Normalized sizes are positive, and there is at least one of them.
pub proof fn lemma_normalized_sizes_positive(n1: isize, n2: isize, n3: isize, n4: isize)
    ensures
        all_positive(normalized_sizes(n1, n2, n3, n4)),
        normalized_sizes(n1, n2, n3, n4).len() >= 1,
{
}

/// Failure to build the vertices of a board.
#[derive(Debug)]
pub enum BuildGraphError {
    ComponentSizesOutOfBounds,
    GraphCreationFailed(GraphCreationError),
    AuxiliaryAlloc,
    StreamWrite,
    FieldAccess(FieldsExtError),
}

/// The product of the component sizes: the number of cells of the board.
pub open spec fn product(sizes: Seq<usize>) -> int
    decreases sizes.len(),
{
    if sizes.len() == 0 {
        1
    } else {
        product(sizes.drop_last()) * sizes.last()
    }
}

/// The entries of a sequence of `usize`, as integers.
pub open spec fn as_ints(s: Seq<usize>) -> Seq<int> {
    s.map_values(|x: usize| x as int)
}

/// The carry of one step of the coordinate counter, from index `k - 1`
/// down: an entry one short of its size goes back to zero and the carry goes
/// on to the left; any other entry is moved on and the carry stops.
pub open spec fn carry(state: Seq<int>, sizes: Seq<usize>, k: nat) -> Seq<int>
    decreases k,
{
    if k == 0 {
        state
    } else {
        let j = (k - 1) as int;
        if state[j] + 1 == sizes[j] {
            carry(state.update(j, 0), sizes, (k - 1) as nat)
        } else {
            state.update(j, state[j] + 1)
        }
    }
}

/// One step of the coordinate counter.
pub open spec fn step(state: Seq<int>, sizes: Seq<usize>) -> Seq<int> {
    carry(state, sizes, state.len())
}

/// The coordinates given to the vertex of index `t`: the counter after `t`
/// steps from all zeros.
pub open spec fn coordinates(sizes: Seq<usize>, t: nat) -> Seq<int>
    decreases t,
{
    if t == 0 {
        Seq::new(sizes.len(), |i: int| 0)
    } else {
        step(coordinates(sizes, (t - 1) as nat), sizes)
    }
}

/// The name built from the first `k` coordinates: each in decimal, followed
/// by a dot unless it is the last coordinate.
pub open spec fn name_prefix(state: Seq<int>, k: nat) -> Seq<char>
    decreases k,
{
    if k == 0 {
        Seq::empty()
    } else {
        name_prefix(state, (k - 1) as nat) + decimal(state[k - 1] as nat) + if k - 1 != state.len()
            - 1 {
            seq!['.']
        } else {
            Seq::empty()
        }
    }
}

/// The name of a vertex with the given coordinates, such as `1.0.3`.
pub open spec fn coordinate_name(state: Seq<int>) -> Seq<char> {
    name_prefix(state, state.len())
}

/// The three integer fields of a vertex after the first `k` coordinates were
/// recorded: each of the first three coordinates, zero where there is none.
pub open spec fn recorded_fields(state: Seq<int>, k: nat) -> Seq<usize> {
    Seq::new(3, |i: int| if i < k && i < state.len() { state[i] as usize } else { 0usize })
}

/// A vertex of a board, with the given coordinates: named after them, with
/// its first three coordinates as integer fields.
pub open spec fn is_board_cell(v: Vertex, state: Seq<int>) -> bool {
    &&& v.fields.strings is None
    &&& v.id@ == coordinate_name(state)
    &&& if state.len() == 0 {
        v.fields.usizes is None
    } else {
        &&& v.fields.usizes is Some
        &&& bucket_items(v.fields.usizes) == recorded_fields(state, state.len())
    }
}

/// The graph built for the component sizes `sizes`: one vertex per cell, in
/// the order of the coordinate counter, and no name, field or arc besides.
pub open spec fn is_board_skeleton(g: Graph, sizes: Seq<usize>) -> bool {
    &&& g.vertices@.len() == product(sizes)
    &&& forall|t: int|
        0 <= t < g.vertices@.len() ==> is_board_cell(
            #[trigger] g.vertices@[t],
            coordinates(sizes, t as nat),
        ) && g.vertices@[t].arcs@.len() == 0
    &&& g.fields.usizes is None
    &&& g.fields.strings is None
    &&& g.id@ == Seq::<char>::empty()
}

/// The first `k` coordinates read as a number whose digit `j` is in base
/// `sizes[j]`, the last digit the lowest.
pub open spec fn radix_value(state: Seq<int>, sizes: Seq<usize>, k: nat) -> int
    decreases k,
{
    if k == 0 {
        0
    } else {
        radix_value(state, sizes, (k - 1) as nat) * sizes[k - 1] + state[k - 1]
    }
}

/// Every coordinate lies from zero to below its size.
pub open spec fn in_range(state: Seq<int>, sizes: Seq<usize>) -> bool {
    &&& state.len() == sizes.len()
    &&& forall|i: int| 0 <= i < state.len() ==> 0 <= #[trigger] state[i] < sizes[i]
}

/// The value of coordinates in range lies below the product of the sizes.
pub proof fn lemma_radix_value_bounds(state: Seq<int>, sizes: Seq<usize>, k: nat)
    requires
        in_range(state, sizes),
        k <= state.len(),
    ensures
        0 <= radix_value(state, sizes, k) < product(sizes.take(k as int)),
    decreases k,
{
    if k == 0 {
        assert(sizes.take(0) =~= Seq::<usize>::empty());
    } else {
        lemma_radix_value_bounds(state, sizes, (k - 1) as nat);
        assert(sizes.take(k as int).drop_last() =~= sizes.take((k - 1) as int));
        let v = radix_value(state, sizes, (k - 1) as nat);
        let p = product(sizes.take((k - 1) as int));
        let m = sizes[k - 1] as int;
        let c = state[k - 1];
        assert(0 <= v * m + c < p * m) by (nonlinear_arith)
            requires
                0 <= v < p,
                0 <= c < m,
        ;
    }
}

/// The value only depends on the first `k` coordinates.
pub proof fn lemma_radix_value_prefix(s: Seq<int>, t: Seq<int>, sizes: Seq<usize>, k: nat)
    requires
        k <= s.len(),
        k <= t.len(),
        forall|i: int| 0 <= i < k ==> #[trigger] s[i] == t[i],
    ensures
        radix_value(s, sizes, k) == radix_value(t, sizes, k),
    decreases k,
{
    if k > 0 {
        lemma_radix_value_prefix(s, t, sizes, (k - 1) as nat);
    }
}

/// A carry from index `k - 1` down, from coordinates in range whose value
/// is not the largest, keeps them in range, leaves the entries from `k` on
/// alone and adds one to the value of the first `k`.
pub proof fn lemma_carry_value(state: Seq<int>, sizes: Seq<usize>, k: nat)
    requires
        in_range(state, sizes),
        k <= state.len(),
        radix_value(state, sizes, k) + 1 < product(sizes.take(k as int)),
    ensures
        in_range(carry(state, sizes, k), sizes),
        forall|i: int| k <= i < state.len() ==> #[trigger] carry(state, sizes, k)[i] == state[i],
        radix_value(carry(state, sizes, k), sizes, k) == radix_value(state, sizes, k) + 1,
    decreases k,
{
    if k == 0 {
        assert(sizes.take(0) =~= Seq::<usize>::empty());
    } else {
        let j = (k - 1) as int;
        let m = sizes[j] as int;
        let v = radix_value(state, sizes, (k - 1) as nat);
        let p = product(sizes.take((k - 1) as int));
        assert(sizes.take(k as int).drop_last() =~= sizes.take(j));
        assert(product(sizes.take(k as int)) == p * m);
        if state[j] + 1 == sizes[j] {
            let next = state.update(j, 0);
            lemma_radix_value_prefix(state, next, sizes, (k - 1) as nat);
            assert(v + 1 < p) by (nonlinear_arith)
                requires
                    v * m + (m - 1) + 1 < p * m,
                    m >= 1,
            ;
            lemma_carry_value(next, sizes, (k - 1) as nat);
            let c = carry(next, sizes, (k - 1) as nat);
            assert(c[j] == 0);
            assert((v + 1) * m == v * m + (m - 1) + 1) by (nonlinear_arith);
        } else {
            let next = state.update(j, state[j] + 1);
            lemma_radix_value_prefix(state, next, sizes, (k - 1) as nat);
        }
    }
}

/// All-zero coordinates have value zero.
pub proof fn lemma_radix_value_zero(state: Seq<int>, sizes: Seq<usize>, k: nat)
    requires
        k <= state.len(),
        forall|i: int| 0 <= i < state.len() ==> #[trigger] state[i] == 0,
    ensures
        radix_value(state, sizes, k) == 0,
    decreases k,
{
    if k > 0 {
        lemma_radix_value_zero(state, sizes, (k - 1) as nat);
    }
}

/// The coordinates of the vertex of index `t` are the digits of `t` in the
/// mixed radix of the component sizes, the last coordinate varying fastest:
/// they are in range and their value is `t`.
pub proof fn lemma_coordinates_value(sizes: Seq<usize>, t: nat)
    requires
        all_positive(sizes),
        t < product(sizes),
    ensures
        in_range(coordinates(sizes, t), sizes),
        radix_value(coordinates(sizes, t), sizes, sizes.len()) == t,
    decreases t,
{
    assert(sizes.take(sizes.len() as int) =~= sizes);
    if t == 0 {
        lemma_radix_value_zero(coordinates(sizes, 0), sizes, sizes.len());
    } else {
        let prev = coordinates(sizes, (t - 1) as nat);
        lemma_coordinates_value(sizes, (t - 1) as nat);
        lemma_carry_value(prev, sizes, sizes.len());
    }
}

/// The coordinates of distinct vertices differ.
pub proof fn lemma_coordinates_distinct(sizes: Seq<usize>, t1: nat, t2: nat)
    requires
        all_positive(sizes),
        t1 < product(sizes),
        t2 < product(sizes),
        t1 != t2,
    ensures
        coordinates(sizes, t1) != coordinates(sizes, t2),
{
    lemma_coordinates_value(sizes, t1);
    lemma_coordinates_value(sizes, t2);
}

/// A name built from fewer than all coordinates ends with a dot.
pub proof fn lemma_name_prefix_ends_with_dot(state: Seq<int>, k: nat)
    requires
        1 <= k < state.len(),
    ensures
        name_prefix(state, k).len() >= 1,
        name_prefix(state, k).last() == '.',
{
}

/// Names built from the same number of nonnegative coordinates are equal
/// only when the coordinates are.
pub proof fn lemma_name_prefix_injective(s: Seq<int>, t: Seq<int>, k: nat)
    requires
        s.len() == t.len(),
        k <= s.len(),
        forall|i: int| 0 <= i < k ==> #[trigger] s[i] >= 0 && t[i] >= 0,
        name_prefix(s, k) == name_prefix(t, k),
    ensures
        forall|i: int| 0 <= i < k ==> #[trigger] s[i] == t[i],
    decreases k,
{
    if k > 0 {
        let j = (k - 1) as int;
        let ps = name_prefix(s, (k - 1) as nat);
        let pt = name_prefix(t, (k - 1) as nat);
        let ds = decimal(s[j] as nat);
        let dt = decimal(t[j] as nat);
        let sep = if j != s.len() - 1 {
            seq!['.']
        } else {
            Seq::<char>::empty()
        };
        let zs = ps + ds;
        let zt = pt + dt;
        assert(name_prefix(s, k) == zs + sep);
        assert(name_prefix(t, k) == zt + sep);
        assert(zs.len() == zt.len());
        assert(zs =~= (zs + sep).subrange(0, zs.len() as int));
        assert(zt =~= (zt + sep).subrange(0, zt.len() as int));
        assert(zs == zt);
        lemma_decimal_no_dot(s[j] as nat);
        lemma_decimal_no_dot(t[j] as nat);
        lemma_decimal_len(s[j] as nat);
        lemma_decimal_len(t[j] as nat);
        if ds.len() < dt.len() {
            if k == 1 {
                assert(false);
            } else {
                lemma_name_prefix_ends_with_dot(s, (k - 1) as nat);
                let q = ps.len() - 1;
                assert(zs[q] == '.');
                assert(zt[q] == dt[q - pt.len()]);
                assert(false);
            }
        }
        if dt.len() < ds.len() {
            if k == 1 {
                assert(false);
            } else {
                lemma_name_prefix_ends_with_dot(t, (k - 1) as nat);
                let q = pt.len() - 1;
                assert(zt[q] == '.');
                assert(zs[q] == ds[q - ps.len()]);
                assert(false);
            }
        }
        assert(ds =~= zs.subrange(ps.len() as int, zs.len() as int));
        assert(dt =~= zt.subrange(pt.len() as int, zt.len() as int));
        assert(ps =~= zs.subrange(0, ps.len() as int));
        assert(pt =~= zt.subrange(0, pt.len() as int));
        lemma_decimal_injective(s[j] as nat, t[j] as nat);
        lemma_name_prefix_injective(s, t, (k - 1) as nat);
    }
}

/// Distinct vertices of a board get distinct names.
pub proof fn lemma_board_names_distinct(sizes: Seq<usize>, t1: nat, t2: nat)
    requires
        all_positive(sizes),
        t1 < product(sizes),
        t2 < product(sizes),
        t1 != t2,
    ensures
        coordinate_name(coordinates(sizes, t1)) != coordinate_name(coordinates(sizes, t2)),
{
    let a = coordinates(sizes, t1);
    let b = coordinates(sizes, t2);
    lemma_coordinates_value(sizes, t1);
    lemma_coordinates_value(sizes, t2);
    lemma_coordinates_distinct(sizes, t1, t2);
    if coordinate_name(a) == coordinate_name(b) {
        lemma_name_prefix_injective(a, b, a.len());
        assert(a =~= b);
    }
}

/// With positive sizes, a longer prefix has at least as large a product.
pub proof fn lemma_product_prefix_monotone(sizes: Seq<usize>, j: nat, k: nat)
    requires
        all_positive(sizes),
        j <= k <= sizes.len(),
    ensures
        1 <= product(sizes.take(j as int)) <= product(sizes.take(k as int)),
    decreases k,
{
    if k == 0 {
        assert(sizes.take(0) =~= Seq::<usize>::empty());
    } else {
        let jj: nat = if j < k { j } else { (k - 1) as nat };
        lemma_product_prefix_monotone(sizes, jj, (k - 1) as nat);
        let a = product(sizes.take((k - 1) as int));
        let b = sizes[k - 1] as int;
        assert(sizes.take(k as int).drop_last() =~= sizes.take((k - 1) as int));
        assert(product(sizes.take(k as int)) == a * b);
        assert(a <= a * b) by (nonlinear_arith)
            requires
                a >= 1,
                b >= 1,
        ;
    }
}

/// Records the coordinate `value` as the integer field of index `idx` of a vertex.
fn record_coordinate(vertex: &mut Vertex, idx: usize, value: usize) -> (r: Result<
    (),
    FieldsExtError,
>)
    requires
        idx < 3,
    ensures
        final(vertex).same_but_usizes(old(vertex)),
        r is Ok ==> {
            &&& final(vertex).fields.usizes is Some
            &&& bucket_items(final(vertex).fields.usizes) == padded(
                bucket_items(old(vertex).fields.usizes),
                3,
                0usize,
            ).update(idx as int, value)
        },
        r matches Err(e) ==> {
            &&& e == FieldsExtError(crate::fields::AllocFailureKind::Bucket("usize"))
            &&& same_bucket(final(vertex).fields.usizes, old(vertex).fields.usizes)
        },
{
    let fields = vertex.chfield_usize(3)?;
    fields.set(idx, value);
    Ok(())
}

/// Builds the vertices of the board of the given component sizes: one vertex
/// per cell, named after the coordinates that the coordinate counter gives
/// it, with its first three coordinates as integer fields.
///
/// Room is reserved for the counter and for the names; failing either is an
/// error, as is a failure to create the graph or its fields.
pub fn build_graph(component_range: &[usize]) -> (r: Result<Graph, BuildGraphError>)
    requires
        all_positive(component_range@),
    ensures
        r matches Ok(g) ==> is_board_skeleton(g, component_range@),
        r matches Err(BuildGraphError::ComponentSizesOutOfBounds) ==> product(component_range@)
            > isize::MAX,
        product(component_range@) > isize::MAX ==> (r matches Err(e) && (e
            is ComponentSizesOutOfBounds || e is AuxiliaryAlloc)),
        !(r matches Err(BuildGraphError::StreamWrite)),
        r matches Err(BuildGraphError::GraphCreationFailed(e)) ==> e
            == GraphCreationError::AllocError(AllocErrorSrc::ArenaAlloc),
        r matches Err(BuildGraphError::FieldAccess(e)) ==> e == FieldsExtError(
            crate::fields::AllocFailureKind::Bucket("usize"),
        ),
{
    let d = component_range.len();
    let ghost sizes = component_range@;
    let mut name_state: Vec<usize> = Vec::new();
    if name_state.try_reserve(d).is_err() {
        return Err(BuildGraphError::AuxiliaryAlloc);
    }
    while name_state.len() < d
        invariant
            name_state@.len() <= d,
            forall|i: int| 0 <= i < name_state@.len() ==> #[trigger] name_state@[i] == 0,
        decreases d - name_state.len(),
    {
        name_state.push(0);
    }
    let mut n: usize = 1;
    let mut i: usize = 0;
    assert(sizes.take(0) =~= Seq::<usize>::empty());
    while i < d
        invariant
            i <= d,
            d == sizes.len(),
            sizes == component_range@,
            all_positive(sizes),
            n as int == product(sizes.take(i as int)),
            n <= isize::MAX,
        decreases d - i,
    {
        assert(sizes.take((i + 1) as int).drop_last() =~= sizes.take(i as int));
        match n.checked_mul(component_range[i]) {
            Some(m) if m <= isize::MAX as usize => {
                n = m;
            },
            _ => {
                proof {
                    lemma_product_prefix_monotone(sizes, (i + 1) as nat, d as nat);
                    assert(sizes.take(d as int) =~= sizes);
                }
                return Err(BuildGraphError::ComponentSizesOutOfBounds);
            },
        }
        i = i + 1;
    }
    assert(sizes.take(d as int) =~= sizes);
    let mut graph = match Graph::new(n) {
        Ok(g) => g,
        Err(e) => {
            return Err(BuildGraphError::GraphCreationFailed(e));
        },
    };
    let mut capacity: usize = 0;
    let mut i: usize = 0;
    while i < d
        invariant
            i <= d,
            d == component_range@.len(),
        decreases d - i,
    {
        capacity = capacity.saturating_add(decimal_len(component_range[i]));
        i = i + 1;
    }
    capacity = capacity.saturating_add(d);
    let mut name = String::new();
    if name.try_reserve(capacity).is_err() {
        return Err(BuildGraphError::AuxiliaryAlloc);
    }
    assert(as_ints(name_state@) =~= coordinates(sizes, 0));
    let mut v: usize = 0;
    while v < n
        invariant
            v <= n,
            n as int == product(sizes),
            n <= isize::MAX,
            d == sizes.len(),
            sizes == component_range@,
            all_positive(sizes),
            graph.vertices@.len() == n,
            graph.fields.usizes is None,
            graph.fields.strings is None,
            graph.id@ == Seq::<char>::empty(),
            forall|t: int|
                0 <= t < v ==> is_board_cell(#[trigger] graph.vertices@[t], coordinates(sizes, t as nat))
                    && graph.vertices@[t].arcs@.len() == 0,
            forall|t: int| v <= t < n ==> (#[trigger] graph.vertices@[t]).is_blank(),
            name_state@.len() == d,
            as_ints(name_state@) == coordinates(sizes, v as nat),
            name@ == Seq::<char>::empty(),
        decreases n - v,
    {
        let ghost state = coordinates(sizes, v as nat);
        proof {
            lemma_coordinates_value(sizes, v as nat);
        }
        assert(graph.vertices@[v as int].is_blank());
        let ghost before_vertices = graph.vertices@;
        let mut idx: usize = 0;
        while idx < d
            invariant
                idx <= d,
                v < n,
                n as int == product(sizes),
                n <= isize::MAX,
                d == sizes.len(),
                sizes == component_range@,
                state == coordinates(sizes, v as nat),
                name_state@.len() == d,
                as_ints(name_state@) == state,
                graph.vertices@.len() == n,
                graph.fields.usizes is None,
                graph.fields.strings is None,
                graph.id@ == Seq::<char>::empty(),
                forall|t: int|
                    0 <= t < n && t != v ==> #[trigger] graph.vertices@[t] == before_vertices[t],
                before_vertices.len() == n,
                name@ == name_prefix(state, idx as nat),
                graph.vertices@[v as int].arcs@.len() == 0,
                graph.vertices@[v as int].fields.strings is None,
                graph.vertices@[v as int].id@ == Seq::<char>::empty(),
                idx == 0 ==> graph.vertices@[v as int].fields.usizes is None,
                idx > 0 ==> graph.vertices@[v as int].fields.usizes is Some && bucket_items(
                    graph.vertices@[v as int].fields.usizes,
                ) == recorded_fields(state, idx as nat),
            decreases d - idx,
        {
            let component = name_state[idx];
            assert(state[idx as int] == component as int);
            push_decimal(&mut name, component);
            if idx != d - 1 {
                proof {
                    reveal_strlit(".");
                }
                name.append(".");
            }
            assert(name@ =~= name_prefix(state, (idx + 1) as nat));
            if idx < 3 {
                match record_coordinate(graph.vertex_mut(v), idx, component) {
                    Ok(()) => {},
                    Err(e) => {
                        return Err(BuildGraphError::FieldAccess(e));
                    },
                }
                assert(bucket_items(graph.vertices@[v as int].fields.usizes) =~= recorded_fields(
                    state,
                    (idx + 1) as nat,
                ));
            } else {
                assert(recorded_fields(state, idx as nat) =~= recorded_fields(
                    state,
                    (idx + 1) as nat,
                ));
            }
            idx = idx + 1;
        }
        graph.vertex_mut(v).set_id(name.as_str());
        name.clear();
        let ghost target = step(state, sizes);
        let mut j: usize = d;
        while j > 0
            invariant_except_break
                j <= d,
                name_state@.len() == d,
                carry(as_ints(name_state@), sizes, j as nat) == target,
                forall|i: int| 0 <= i < j ==> #[trigger] name_state@[i] as int == state[i],
            invariant
                d == sizes.len(),
                state.len() == d,
                sizes == component_range@,
                v < n,
                in_range(state, sizes),
            ensures
                as_ints(name_state@) == target,
                name_state@.len() == d,
            decreases j,
        {
            j = j - 1;
            let c = name_state[j];
            let ghost cur = as_ints(name_state@);
            if c + 1 == component_range[j] {
                name_state.set(j, 0);
                assert(as_ints(name_state@) =~= cur.update(j as int, 0));
            } else {
                name_state.set(j, c + 1);
                assert(as_ints(name_state@) =~= cur.update(j as int, cur[j as int] + 1));
                break;
            }
        }
        v = v + 1;
    }
    Ok(graph)
}

/// Failure to name a board.
#[derive(Debug)]
pub enum NamingError {
    AuxiliaryAlloc,
    StreamWrite,
}

/// The renderings of the first `k` parameters, each followed by a comma.
pub open spec fn concat_params(params: Seq<isize>, k: nat) -> Seq<char>
    decreases k,
{
    if k == 0 {
        Seq::empty()
    } else {
        concat_params(params, (k - 1) as nat) + signed_decimal(params[k - 1] as int) + seq![',']
    }
}

/// The pieces joined with a dot between each two of them.
pub open spec fn dot_joined(pieces: Seq<Seq<char>>) -> Seq<char>
    decreases pieces.len(),
{
    if pieces.len() == 0 {
        Seq::empty()
    } else if pieces.len() == 1 {
        pieces[0]
    } else {
        dot_joined(pieces.drop_last()) + seq!['.'] + pieces.last()
    }
}

/// The pieces, each followed by a comma.
pub open spec fn comma_terminated(pieces: Seq<Seq<char>>) -> Seq<char>
    decreases pieces.len(),
{
    if pieces.len() == 0 {
        Seq::empty()
    } else {
        comma_terminated(pieces.drop_last()) + pieces.last() + seq![',']
    }
}

/// `piece` is how `Display` writes the nonnegative `value`: decimal digits,
/// most significant first, that stand for it, with no leading zero.
pub open spec fn renders(piece: Seq<char>, value: int) -> bool {
    &&& piece.len() >= 1
    &&& forall|i: int| 0 <= i < piece.len() ==> is_digit(#[trigger] piece[i])
    &&& digits_value(piece) == value
    &&& piece[0] == '0' ==> piece.len() == 1
}

/// `piece` is how `Display` writes the integer `value`: a minus sign before
/// the rendering of its magnitude where it is negative.
pub open spec fn renders_signed(piece: Seq<char>, value: int) -> bool {
    if value < 0 {
        piece.len() >= 1 && piece[0] == '-' && renders(piece.drop_first(), -value)
    } else {
        renders(piece, value)
    }
}

/// The renderings of the coordinates, one per coordinate.
pub open spec fn coordinate_pieces(state: Seq<int>) -> Seq<Seq<char>> {
    Seq::new(state.len(), |k: int| decimal(state[k] as nat))
}

/// The name built from the first `k` coordinates is the first `k`
/// renderings joined by dots, followed by a dot where more coordinates come.
pub proof fn lemma_name_prefix_joined(state: Seq<int>, k: nat)
    requires
        1 <= k <= state.len(),
    ensures
        name_prefix(state, k) == dot_joined(coordinate_pieces(state).take(k as int)) + if k
            < state.len() {
            seq!['.']
        } else {
            Seq::<char>::empty()
        },
    decreases k,
{
    let ps = coordinate_pieces(state);
    if k == 1 {
        assert(name_prefix(state, 0) == Seq::<char>::empty());
        assert(ps.take(1).len() == 1);
        assert(ps.take(1)[0] == decimal(state[0] as nat));
    } else {
        lemma_name_prefix_joined(state, (k - 1) as nat);
        assert(ps.take(k as int).drop_last() =~= ps.take(k - 1));
        assert(ps.take(k as int).last() == decimal(state[k - 1] as nat));
    }
}

/// The names of the vertices of a board: the name of the vertex `t` is its
/// coordinates, each written as `Display` writes it (most significant digit
/// first, no leading zero), joined by dots, such as `1.10` for the
/// coordinates one and ten.
pub proof fn lemma_board_vertex_names(g: Graph, sizes: Seq<usize>, t: int)
    requires
        is_board_skeleton(g, sizes),
        all_positive(sizes),
        0 <= t < g.vertices@.len(),
    ensures
        g.vertices@[t].id@ == dot_joined(coordinate_pieces(coordinates(sizes, t as nat))),
        coordinate_pieces(coordinates(sizes, t as nat)).len() == sizes.len(),
        forall|k: int|
            0 <= k < sizes.len() ==> renders(
                #[trigger] coordinate_pieces(coordinates(sizes, t as nat))[k],
                coordinates(sizes, t as nat)[k],
            ),
{
    let c = coordinates(sizes, t as nat);
    let ps = coordinate_pieces(c);
    lemma_coordinates_value(sizes, t as nat);
    assert(is_board_cell(g.vertices@[t], c));
    if c.len() == 0 {
        assert(ps =~= Seq::<Seq<char>>::empty());
    } else {
        lemma_name_prefix_joined(c, c.len());
        assert(ps.take(c.len() as int) =~= ps);
    }
    assert forall|k: int| 0 <= k < sizes.len() implies renders(#[trigger] ps[k], c[k]) by {
        assert(0 <= c[k]);
        lemma_decimal_ordinary(c[k] as nat);
        lemma_decimal_len(c[k] as nat);
    }
}

/// The renderings of the first `k` parameters, each followed by a comma,
/// are those of each parameter, in order.
pub proof fn lemma_concat_params_pieces(params: Seq<isize>, k: nat)
    requires
        k <= params.len(),
    ensures
        concat_params(params, k) == comma_terminated(
            Seq::new(k, |j: int| signed_decimal(params[j] as int)),
        ),
    decreases k,
{
    let ps = Seq::new(k, |j: int| signed_decimal(params[j] as int));
    if k > 0 {
        lemma_concat_params_pieces(params, (k - 1) as nat);
        assert(ps.drop_last() =~= Seq::new((k - 1) as nat, |j: int| signed_decimal(params[j] as int)));
    } else {
        assert(ps =~= Seq::<Seq<char>>::empty());
    }
}

/// The name of a board: `board(`, then each parameter as `Display` writes
/// it (a minus sign for a negative one, its digits most significant first),
/// each followed by a comma, then `1` for a directed board or `0`, and `)`.
pub proof fn lemma_board_name_pieces(params: Seq<isize>, directed: bool)
    ensures
        board_name(params, directed) == seq!['b', 'o', 'a', 'r', 'd', '('] + comma_terminated(
            Seq::new(params.len(), |j: int| signed_decimal(params[j] as int)),
        ) + seq![
            if directed {
                '1'
            } else {
                '0'
            },
            ')',
        ],
        forall|j: int|
            0 <= j < params.len() ==> renders_signed(
                #[trigger] signed_decimal(params[j] as int),
                params[j] as int,
            ),
{
    lemma_concat_params_pieces(params, params.len());
    assert forall|j: int| 0 <= j < params.len() implies renders_signed(
        #[trigger] signed_decimal(params[j] as int),
        params[j] as int,
    ) by {
        let x = params[j] as int;
        lemma_signed_decimal_ordinary(x);
        if x < 0 {
            lemma_decimal_ordinary((-x) as nat);
            lemma_decimal_len((-x) as nat);
        } else {
            lemma_decimal_ordinary(x as nat);
            lemma_decimal_len(x as nat);
        }
    }
    let d = seq![
        if directed {
            '1'
        } else {
            '0'
        },
    ];
    assert(d + seq![')'] =~= seq![
        if directed {
            '1'
        } else {
            '0'
        },
        ')',
    ]);
}

/// The name of a board: `board(`, each parameter in decimal followed by a
/// comma, `1` or `0` for `directed`, and `)`, such as `board(8,8,0,0,5,0,1)`.
pub open spec fn board_name(params: Seq<isize>, directed: bool) -> Seq<char> {
    seq!['b', 'o', 'a', 'r', 'd', '('] + concat_params(params, params.len()) + seq![
        if directed {
            '1'
        } else {
            '0'
        },
    ] + seq![')']
}

/// Names the graph after the parameters of the board it was built for.
///
/// The room the name needs, from the number of digits of each parameter and
/// a comma after each, is reserved first; failing that, the graph keeps its
/// name.
pub fn name_graph(graph: &mut Graph, params: &[isize], directed: bool) -> (r: Result<
    (),
    NamingError,
>)
    ensures
        final(graph).vertices == old(graph).vertices,
        final(graph).fields == old(graph).fields,
        r is Ok ==> final(graph).id@ == board_name(params@, directed),
        r matches Err(e) ==> e == NamingError::AuxiliaryAlloc && final(graph).id == old(graph).id,
{
    let mut capacity: usize = 7;
    let mut i: usize = 0;
    while i < params.len()
        invariant
            i <= params@.len(),
        decreases params@.len() - i,
    {
        capacity = capacity.saturating_add(signed_decimal_len(params[i]));
        i = i + 1;
    }
    capacity = capacity.saturating_add(params.len());
    capacity = capacity.saturating_add(1);
    let mut graph_id = String::new();
    if graph_id.try_reserve(capacity).is_err() {
        return Err(NamingError::AuxiliaryAlloc);
    }
    proof {
        reveal_strlit("board(");
        reveal_strlit(")");
    }
    graph_id.append("board(");
    let mut i: usize = 0;
    while i < params.len()
        invariant
            i <= params@.len(),
            graph_id@ == seq!['b', 'o', 'a', 'r', 'd', '('] + concat_params(params@, i as nat),
        decreases params@.len() - i,
    {
        push_signed_decimal(&mut graph_id, params[i]);
        proof {
            reveal_strlit(",");
        }
        graph_id.append(",");
        assert(graph_id@ =~= seq!['b', 'o', 'a', 'r', 'd', '('] + concat_params(params@, (i + 1) as nat));
        i = i + 1;
    }
    let flag: isize = if directed {
        1
    } else {
        0
    };
    push_signed_decimal(&mut graph_id, flag);
    graph_id.append(")");
    assert(graph_id@ =~= board_name(params@, directed));
    graph.set_id(graph_id.as_str());
    Ok(())
}

/// Failure to set up the state of the move generation.
#[derive(Debug)]
pub enum InitStateError {
    AuxiliaryAlloc(InitStateErrorSrc, usize),
}

/// Which part of the state of the move generation failed to be allocated.
#[derive(Debug)]
pub enum InitStateErrorSrc {
    Wrapping,
    Motions,
    Change,
}

/// Two to the power `k`.
pub open spec fn bit_weight(k: nat) -> nat
    decreases k,
{
    if k == 0 {
        1
    } else {
        2 * bit_weight((k - 1) as nat)
    }
}

/// Whether the coordinate of index `k` wraps around: bit `k` of `wrap` in
/// two's complement, the sign bit standing for every bit past the machine
/// word, as an arithmetic shift gives them; so a negative `wrap` wraps every
/// coordinate past the word.
pub open spec fn wraps(wrap: isize, k: nat) -> bool {
    if k < usize::BITS {
        ((wrap as usize) as nat / bit_weight(k)) % 2 == 1
    } else {
        wrap < 0
    }
}

/// Sets up the state of the move generation for a board of `dimensions`
/// dimensions: which coordinates wrap around, a zero motion per dimension,
/// and one zero partial sum more than there are dimensions.
pub fn init_state(wrap: isize, dimensions: usize) -> (r: Result<
    (Vec<bool>, Vec<isize>, Vec<usize>),
    InitStateError,
>)
    ensures
        dimensions > isize::MAX ==> r matches Err(InitStateError::AuxiliaryAlloc(
            InitStateErrorSrc::Wrapping,
            _,
        )),
        r matches Ok((w, m, c)) ==> {
            &&& w@ == Seq::new(dimensions as nat, |k: int| wraps(wrap, k as nat))
            &&& m@ == Seq::new(dimensions as nat, |k: int| 0isize)
            &&& c@ == Seq::new((dimensions + 1) as nat, |k: int| 0usize)
        },
        r matches Err(InitStateError::AuxiliaryAlloc(src, n)) ==> {
            ||| src is Wrapping && n == dimensions
            ||| src is Motions && n == dimensions
            ||| src is Change && n == dimensions + 1
        },
{
    let mut should_wrap: Vec<bool> = Vec::new();
    // No vector holds more than `isize::MAX` bytes: such a reservation fails.
    proof {
        broadcast use vstd::layout::layout_of_primitives;
        assert(vstd::layout::size_of::<bool>() == 1);
    }
    if reserve_room(&mut should_wrap, dimensions).is_err() {
        return Err(InitStateError::AuxiliaryAlloc(InitStateErrorSrc::Wrapping, dimensions));
    }
    let mut wrap_mask: usize = #[verifier::truncate] (wrap as usize);
    let mut k: usize = 0;
    assert(bit_weight(0) == 1);
    assert(wrap_mask == (wrap as usize));
    assert(wrap_mask as nat / 1 == wrap_mask as nat);
    while k < dimensions
        invariant
            k <= dimensions,
            dimensions <= isize::MAX,
            should_wrap@ == Seq::new(k as nat, |j: int| wraps(wrap, j as nat)),
            wrap_mask as nat == (wrap as usize) as nat / bit_weight(k as nat),
        decreases dimensions - k,
    {
        let bit = if k < usize::BITS as usize {
            (wrap_mask & 1) != 0
        } else {
            wrap < 0
        };
        proof {
            assert(wrap_mask & 1 == wrap_mask % 2) by (bit_vector);
            assert(wrap_mask >> 1 == wrap_mask / 2) by (bit_vector);
            lemma_bit_weight_positive(k as nat);
            vstd::arithmetic::div_mod::lemma_div_denominator(
                (wrap as usize) as int,
                bit_weight(k as nat) as int,
                2,
            );
            assert(bit_weight((k + 1) as nat) == bit_weight(k as nat) * 2);
        }
        should_wrap.push(bit);
        wrap_mask = wrap_mask >> 1;
        assert(should_wrap@ =~= Seq::new((k + 1) as nat, |j: int| wraps(wrap, j as nat)));
        k = k + 1;
    }
    let mut motions: Vec<isize> = Vec::new();
    if motions.try_reserve(dimensions).is_err() {
        return Err(InitStateError::AuxiliaryAlloc(InitStateErrorSrc::Motions, dimensions));
    }
    while motions.len() < dimensions
        invariant
            motions@.len() <= dimensions,
            motions@ == Seq::new(motions@.len(), |j: int| 0isize),
        decreases dimensions - motions.len(),
    {
        motions.push(0);
        assert(motions@ =~= Seq::new(motions@.len(), |j: int| 0isize));
    }
    let mut change: Vec<usize> = Vec::new();
    if change.try_reserve(dimensions + 1).is_err() {
        return Err(InitStateError::AuxiliaryAlloc(InitStateErrorSrc::Change, dimensions + 1));
    }
    while change.len() < dimensions + 1
        invariant
            dimensions <= isize::MAX,
            change@.len() <= dimensions + 1,
            change@ == Seq::new(change@.len(), |j: int| 0usize),
        decreases dimensions + 1 - change.len(),
    {
        change.push(0);
        assert(change@ =~= Seq::new(change@.len(), |j: int| 0usize));
    }
    Ok((should_wrap, motions, change))
}

/// Powers of two are positive.
pub proof fn lemma_bit_weight_positive(k: nat)
    ensures
        bit_weight(k) >= 1,
    decreases k,
{
    if k > 0 {
        lemma_bit_weight_positive((k - 1) as nat);
    }
}

/// Failure to add the arcs of a board.
#[derive(Debug)]
pub enum FillArcsError {
    InitState(InitStateErrorSrc, usize),
    AuxiliaryAlloc,
    Moves(GenMovesError),
}

/// The coordinates `y` are where a piece on `x` lands after `k` steps by
/// `delta` on a board of `sizes`: each component moved on by `k` times its
/// motion, brought back modulo its size where it wraps around, and as it is
/// where it does not.
pub open spec fn lands_on(
    sizes: Seq<usize>,
    wrap: Seq<bool>,
    x: Seq<int>,
    delta: Seq<isize>,
    k: int,
    y: Seq<int>,
) -> bool {
    forall|c: int|
        0 <= c < sizes.len() ==> #[trigger] y[c] == if wrap[c] {
            (x[c] + k * delta[c]) % (sizes[c] as int)
        } else {
            x[c] + k * delta[c]
        }
}

/// The law of a board's moves: its component sizes, which components wrap
/// around, the squared length `p` of a move, and whether the piece rides.
pub struct MoveLaw {
    pub sizes: Seq<usize>,
    pub wrap: Seq<bool>,
    pub p: int,
    pub rider: bool,
}

impl MoveLaw {
    /// The piece moves from the vertex `u` to the vertex `v` by `k` steps of
    /// the motion `delta`, whose squares sum to `p`: one step, or any number
    /// for a rider.
    pub open spec fn moves_by(self, u: int, v: int, delta: Seq<isize>, k: int) -> bool {
        &&& delta.len() == self.sizes.len()
        &&& sum_squares(delta, delta.len()) == self.p
        &&& 1 <= k
        &&& (!self.rider ==> k == 1)
        &&& lands_on(
            self.sizes,
            self.wrap,
            coordinates(self.sizes, u as nat),
            delta,
            k,
            coordinates(self.sizes, v as nat),
        )
    }

    /// The piece moves from the vertex `u` to the vertex `v`.
    pub open spec fn allows(self, u: int, v: int) -> bool {
        exists|delta: Seq<isize>, k: int| #[trigger] self.moves_by(u, v, delta, k)
    }
}

/// Coordinates in range with the same value are the same.
pub proof fn lemma_radix_value_injective(a: Seq<int>, b: Seq<int>, sizes: Seq<usize>, k: nat)
    requires
        in_range(a, sizes),
        in_range(b, sizes),
        k <= sizes.len(),
        radix_value(a, sizes, k) == radix_value(b, sizes, k),
    ensures
        forall|j: int| 0 <= j < k ==> #[trigger] a[j] == b[j],
    decreases k,
{
    if k > 0 {
        let m = sizes[k - 1] as int;
        let va = radix_value(a, sizes, (k - 1) as nat);
        let vb = radix_value(b, sizes, (k - 1) as nat);
        let v = radix_value(a, sizes, k);
        vstd::arithmetic::div_mod::lemma_fundamental_div_mod_converse(v, m, va, a[k - 1]);
        vstd::arithmetic::div_mod::lemma_fundamental_div_mod_converse(v, m, vb, b[k - 1]);
        lemma_radix_value_injective(a, b, sizes, (k - 1) as nat);
    }
}

/// The entries of a state of `isize`, as integers.
pub open spec fn isize_ints(s: Seq<isize>) -> Seq<int> {
    s.map_values(|x: isize| x as int)
}

/// The vertex index of coordinates is their value.
pub proof fn lemma_index_prefix_value(w: Seq<isize>, sizes: Seq<usize>, k: nat)
    requires
        1 <= k <= w.len(),
        k <= sizes.len(),
    ensures
        index_prefix(w, sizes, k) == radix_value(isize_ints(w), sizes, k),
    decreases k,
{
    if k == 1 {
        assert(radix_value(isize_ints(w), sizes, 0) == 0);
    } else {
        lemma_index_prefix_value(w, sizes, (k - 1) as nat);
        let v = index_prefix(w, sizes, (k - 1) as nat);
        let m = sizes[k - 1] as int;
        assert(m * v == v * m) by (nonlinear_arith);
    }
}

/// The coordinates of the vertex that coordinates on the board index are
/// those coordinates.
pub proof fn lemma_index_coordinates(w: Seq<isize>, sizes: Seq<usize>)
    requires
        all_positive(sizes),
        sizes.len() >= 1,
        product(sizes) <= isize::MAX,
        w.len() == sizes.len(),
        forall|c: int| 0 <= c < w.len() ==> 0 <= #[trigger] w[c] < sizes[c],
    ensures
        vertex_index(w, sizes) < product(sizes),
        coordinates(sizes, vertex_index(w, sizes) as nat) == isize_ints(w),
{
    let d = sizes.len();
    let a = isize_ints(w);
    assert(in_range(a, sizes));
    lemma_index_prefix_value(w, sizes, d);
    lemma_radix_value_bounds(a, sizes, d);
    assert(sizes.take(d as int) =~= sizes);
    let v = radix_value(a, sizes, d);
    assert(vertex_index(w, sizes) as int == v);
    lemma_coordinates_value(sizes, v as nat);
    lemma_radix_value_injective(coordinates(sizes, v as nat), a, sizes, d);
    assert(coordinates(sizes, v as nat) =~= a);
}

/// The vertex counter steps through the coordinates as the coordinate
/// counter does.
pub proof fn lemma_counter_carry_ints(state: Seq<isize>, ranges: Seq<usize>, k: nat)
    requires
        counter_in_range(state, ranges),
        k <= state.len(),
    ensures
        isize_ints(counter_carry(state, ranges, k)) == carry(isize_ints(state), ranges, k),
    decreases k,
{
    if k > 0 {
        let j = (k - 1) as int;
        if state[j] + 1 == ranges[j] as int {
            let next = state.update(j, 0);
            assert(isize_ints(next) =~= isize_ints(state).update(j, 0));
            lemma_counter_carry_ints(next, ranges, (k - 1) as nat);
        } else {
            assert(isize_ints(state.update(j, (state[j] + 1) as isize)) =~= isize_ints(
                state,
            ).update(j, state[j] + 1));
        }
    }
}

/// A move and the move back: where `y` is where `x` lands by `k` steps of
/// `delta`, `x` is where `y` lands by `k` steps of its opposite.
pub proof fn lemma_lands_on_reverse(
    sizes: Seq<usize>,
    wrap: Seq<bool>,
    x: Seq<int>,
    delta: Seq<isize>,
    back: Seq<isize>,
    k: int,
    y: Seq<int>,
)
    requires
        in_range(x, sizes),
        in_range(y, sizes),
        wrap.len() >= sizes.len(),
        delta.len() == sizes.len(),
        back.len() == sizes.len(),
        forall|c: int| 0 <= c < sizes.len() ==> #[trigger] back[c] == -delta[c],
        lands_on(sizes, wrap, x, delta, k, y),
    ensures
        lands_on(sizes, wrap, y, back, k, x),
{
    assert forall|c: int| 0 <= c < sizes.len() implies #[trigger] x[c] == if wrap[c] {
        (y[c] + k * back[c]) % (sizes[c] as int)
    } else {
        y[c] + k * back[c]
    } by {
        let m = sizes[c] as int;
        let z = k * delta[c];
        assert(k * back[c] == -z) by (nonlinear_arith)
            requires
                back[c] == -delta[c],
                z == k * delta[c],
        ;
        if wrap[c] {
            assert(y[c] == (x[c] + z) % m);
            vstd::arithmetic::div_mod::lemma_add_mod_noop_right(-z, x[c] + z, m);
            assert(-z + (x[c] + z) == x[c]);
            vstd::arithmetic::div_mod::lemma_small_mod(x[c] as nat, m as nat);
        }
    }
}

/// The law of the moves of `piece` on the board of `sizes` whose components
/// wrap around as `wrap` says: moves of squared length `|piece|`, ridden any
/// number of times where `piece` is not positive.
pub open spec fn board_law(sizes: Seq<usize>, wrap: Seq<bool>, piece: isize) -> MoveLaw {
    MoveLaw { sizes, wrap, p: magnitude_of(piece), rider: piece <= 0 }
}

/// Which of the first `d` components wrap around, by the bits of `wrap`.
pub open spec fn wrap_bits(wrap: isize, d: nat) -> Seq<bool> {
    Seq::new(d, |k: int| wraps(wrap, k as nat))
}

/// Each arc that the moves from the vertex `u`, on the coordinates `x`, by
/// the motion of `rules` add goes to a vertex of the graph, and the law of
/// the board allows it both ways.
pub proof fn lemma_tip_allowed(rules: MoveRules, x: Seq<isize>, u: int, t: nat, order: nat)
    requires
        rules.board_fits(order),
        counter_in_range(x, rules.ranges),
        isize_ints(x) == coordinates(rules.ranges, u as nat),
        sum_squares(rules.change, rules.change.len()) == magnitude_of(rules.piece),
        t < rules.arc_count(moved_state(x, rules.change)),
    ensures
        rules.tips(moved_state(x, rules.change))[t as int] < order,
        board_law(rules.ranges, rules.wrap, rules.piece).allows(
            u,
            rules.tips(moved_state(x, rules.change))[t as int] as int,
        ),
        board_law(rules.ranges, rules.wrap, rules.piece).allows(
            rules.tips(moved_state(x, rules.change))[t as int] as int,
            u,
        ),
{
    let s0 = moved_state(x, rules.change);
    let law = board_law(rules.ranges, rules.wrap, rules.piece);
    let d = rules.ranges.len();
    assert forall|j: nat| j <= t implies rules.adds_arc(#[trigger] rules.state_at(s0, j)) by {
        rules.lemma_counted_adds(s0, j);
    }
    rules.lemma_counted_adds(s0, t);
    rules.lemma_rounds_land(x, t, order);
    let w = wrapped_state(rules.state_at(s0, t), rules.ranges, rules.wrap).0;
    lemma_index_coordinates(w, rules.ranges);
    let v = vertex_index(w, rules.ranges);
    assert(rules.tips(s0)[t as int] == v);
    let cu = coordinates(rules.ranges, u as nat);
    let cv = coordinates(rules.ranges, v as nat);
    let k = (t + 1) as int;
    assert(lands_on(law.sizes, law.wrap, cu, rules.change, k, cv));
    assert(rules.piece > 0 ==> k == 1);
    assert(rules.change.len() == law.sizes.len());
    assert(sum_squares(rules.change, rules.change.len()) == law.p);
    assert(coordinates(law.sizes, (v as int) as nat) == cv);
    assert(lands_on(law.sizes, law.wrap, coordinates(law.sizes, u as nat), rules.change, k, coordinates(law.sizes, (v as int) as nat)));
    assert(law.moves_by(u, v as int, rules.change, k));
    let back = rules.change.map_values(|y: isize| (-y) as isize);
    assert forall|c: int| 0 <= c < d implies #[trigger] back[c] == -rules.change[c] by {
        assert(rules.ranges[c] <= isize::MAX);
    }
    assert(in_range(cu, rules.ranges));
    assert(in_range(cv, rules.ranges));
    lemma_lands_on_reverse(rules.ranges, rules.wrap, cu, rules.change, back, k, cv);
    lemma_sum_squares_signs(back, rules.change, d);
    assert(lands_on(law.sizes, law.wrap, cv, back, k, cu));
    assert(law.moves_by(v as int, u, back, k));
}

/// A coordinate on a board of size `size`, moved by a motion component `m`
/// whose square is at most `p`, fits in an `isize`.
pub open spec fn motion_fits(size: usize, p: int, m: int) -> bool {
    m * m <= p ==> size + m <= isize::MAX
}

/// Every coordinate of a board of `sizes` moved by a motion component whose
/// square is at most `p` fits in an `isize`: each size plus the integer
/// square root of `p` does.
pub open spec fn motions_fit(sizes: Seq<usize>, p: int) -> bool {
    forall|k: int, m: int| 0 <= k < sizes.len() && 0 <= m ==> #[trigger] motion_fits(sizes[k], p, m)
}

/// The magnitude of `x`.
pub open spec fn magnitude_of(x: isize) -> int {
    if x < 0 {
        -x
    } else {
        x as int
    }
}

/// The sum of the squares of the first `k` motions.
pub open spec fn sum_squares(del: Seq<isize>, k: nat) -> int
    decreases k,
{
    if k == 0 {
        0
    } else {
        sum_squares(del, (k - 1) as nat) + del[k - 1] * del[k - 1]
    }
}

/// The motions, as integers.
pub open spec fn motion_digits(del: Seq<isize>) -> Seq<int> {
    del.map_values(|x: isize| x as int)
}

/// The number whose digits in base `b` are `s`, most significant first.
pub open spec fn lex_rank(s: Seq<int>, b: int) -> int
    decreases s.len(),
{
    if s.len() == 0 {
        0
    } else {
        lex_rank(s.drop_last(), b) * b + s.last()
    }
}

/// `b` to the power `e`.
pub open spec fn power(b: int, e: nat) -> int
    decreases e,
{
    if e == 0 {
        1
    } else {
        power(b, (e - 1) as nat) * b
    }
}

/// Digits in `[0, b)` make a number in `[0, b^len)`.
pub proof fn lemma_lex_rank_bounds(s: Seq<int>, b: int)
    requires
        b >= 1,
        forall|i: int| 0 <= i < s.len() ==> 0 <= #[trigger] s[i] < b,
    ensures
        0 <= lex_rank(s, b) < power(b, s.len()),
    decreases s.len(),
{
    if s.len() > 0 {
        let t = s.drop_last();
        lemma_lex_rank_bounds(t, b);
        let r = lex_rank(t, b);
        let p = power(b, t.len());
        let l = s.last();
        assert(0 <= r * b + l < p * b) by (nonlinear_arith)
            requires
                0 <= r < p,
                0 <= l < b,
        ;
    }
}

/// Moving one digit on and clearing the digits after it makes a larger number.
pub proof fn lemma_lex_rank_increment(s: Seq<int>, t: Seq<int>, b: int, i: int)
    requires
        b >= 1,
        s.len() == t.len(),
        0 <= i < s.len(),
        forall|j: int| 0 <= j < s.len() ==> 0 <= #[trigger] s[j] < b,
        forall|j: int| 0 <= j < i ==> #[trigger] t[j] == s[j],
        t[i] == s[i] + 1,
        forall|j: int| i < j < t.len() ==> #[trigger] t[j] == 0,
    ensures
        lex_rank(t, b) > lex_rank(s, b),
    decreases s.len(),
{
    let n = s.len();
    if i == n - 1 {
        assert(t.drop_last() =~= s.drop_last());
    } else {
        let sd = s.drop_last();
        let td = t.drop_last();
        lemma_lex_rank_increment(sd, td, b, i);
        let x = lex_rank(sd, b);
        let y = lex_rank(td, b);
        let l = s.last();
        assert(t.last() == 0);
        assert(y * b + 0 > x * b + l) by (nonlinear_arith)
            requires
                y >= x + 1,
                0 <= l < b,
        ;
    }
}

/// Partial sums of squares only depend on the motions they cover.
pub proof fn lemma_sum_squares_prefix(a: Seq<isize>, b: Seq<isize>, k: nat)
    requires
        k <= a.len(),
        k <= b.len(),
        forall|j: int| 0 <= j < k ==> #[trigger] a[j] == b[j],
    ensures
        sum_squares(a, k) == sum_squares(b, k),
    decreases k,
{
    if k > 0 {
        lemma_sum_squares_prefix(a, b, (k - 1) as nat);
    }
}

/// Zero motions add nothing to a partial sum of squares.
pub proof fn lemma_sum_squares_zero_tail(a: Seq<isize>, i: nat, k: nat)
    requires
        i <= k <= a.len(),
        forall|j: int| i <= j < k ==> #[trigger] a[j] == 0,
    ensures
        sum_squares(a, k) == sum_squares(a, i),
    decreases k,
{
    if k > i {
        lemma_sum_squares_zero_tail(a, i, (k - 1) as nat);
    }
}

/// Partial sums of squares grow with the number of motions they cover, and
/// each covers the square of every motion it includes.
pub proof fn lemma_sum_squares_monotone(a: Seq<isize>, j: nat, k: nat)
    requires
        j <= k <= a.len(),
    ensures
        sum_squares(a, j) <= sum_squares(a, k),
        j < k ==> a[j as int] * a[j as int] <= sum_squares(a, k) - sum_squares(a, j),
    decreases k,
{
    if k > j {
        lemma_sum_squares_monotone(a, j, (k - 1) as nat);
        let x = a[k - 1];
        assert(x * x >= 0) by (nonlinear_arith);
        if j < k - 1 {
            lemma_sum_squares_monotone(a, j, (k - 1) as nat);
        }
    }
}

/// The square of `x`, or `isize::MAX` where it does not fit, as
/// `isize::saturating_pow(x, 2)` gives it.
fn saturating_square(x: isize) -> (r: isize)
    requires
        x >= 0,
    ensures
        r == if x * x <= isize::MAX {
            x * x
        } else {
            isize::MAX as int
        },
{
    match x.checked_mul(x) {
        Some(v) => v,
        None => isize::MAX,
    }
}

/// The state of the enumeration of motions: the motions are nonnegative,
/// their squares sum to at most `p`, and `sig[j]` is the sum of the squares
/// of the first `j` motions.
pub open spec fn motions_consistent(del: Seq<isize>, sig: Seq<usize>, d: nat, p: int) -> bool {
    &&& del.len() == d
    &&& sig.len() == d + 1
    &&& forall|j: int| 0 <= j < d ==> #[trigger] del[j] >= 0
    &&& forall|j: int| 0 <= j <= d ==> #[trigger] sig[j] as int == sum_squares(del, j as nat)
    &&& sum_squares(del, d) <= p
}

/// The motion after `del` in increasing lexicographic order among those
/// whose squares sum to at most `p`, looked for from component `k - 1` down:
/// a component that cannot grow by one goes back to zero, and the first that
/// can grows by one; nothing where none can.
pub open spec fn advance_from(del: Seq<isize>, p: int, k: nat) -> Option<Seq<isize>>
    decreases k,
{
    if k == 0 {
        None
    } else {
        let j = (k - 1) as int;
        if sum_squares(del, j as nat) + (del[j] + 1) * (del[j] + 1) > p {
            advance_from(del.update(j, 0), p, j as nat)
        } else {
            Some(del.update(j, (del[j] + 1) as isize))
        }
    }
}

/// The motions after `del`, in order, whose squares sum to exactly `p`,
/// among at most `fuel` further motions.
pub open spec fn motions_after(del: Seq<isize>, p: int, fuel: nat) -> Seq<Seq<isize>>
    decreases fuel,
{
    if fuel == 0 {
        Seq::empty()
    } else {
        match advance_from(del, p, del.len()) {
            None => Seq::empty(),
            Some(n) => (if sum_squares(n, n.len()) == p {
                seq![n]
            } else {
                Seq::empty()
            }) + motions_after(n, p, (fuel - 1) as nat),
        }
    }
}

/// The nonnegative motions of `d` components whose squares sum to `p`, in
/// increasing lexicographic order.
pub open spec fn board_magnitudes(p: int, d: nat) -> Seq<Seq<isize>> {
    motions_after(Seq::new(d, |k: int| 0isize), p, power(p + 1, d) as nat)
}

/// The signs of `del` after the next step, looked for from component `k - 1`
/// down: a component that is not positive changes sign and the step goes on;
/// the first positive one changes sign, unless all components before it are
/// zero, in which case there is no next step.
pub open spec fn sign_step(del: Seq<isize>, k: nat) -> Option<Seq<isize>>
    decreases k,
{
    if k == 0 {
        None
    } else {
        let j = (k - 1) as int;
        if del[j] <= 0 {
            sign_step(del.update(j, (-del[j]) as isize), j as nat)
        } else if sum_squares(del, j as nat) != 0 {
            Some(del.update(j, (-del[j]) as isize))
        } else {
            None
        }
    }
}

/// `del` and the signed motions after it, in order, for at most `fuel`
/// motions: every choice of signs whose first nonzero component stays as in
/// `del`.
pub open spec fn signs_from(del: Seq<isize>, fuel: nat) -> Seq<Seq<isize>>
    decreases fuel,
{
    if fuel == 0 {
        Seq::empty()
    } else {
        seq![del] + match sign_step(del, del.len()) {
            None => Seq::empty(),
            Some(n) => signs_from(n, (fuel - 1) as nat),
        }
    }
}

/// Each motion of `ms` followed by its other choices of signs.
pub open spec fn with_signs(ms: Seq<Seq<isize>>) -> Seq<Seq<isize>>
    decreases ms.len(),
{
    if ms.len() == 0 {
        Seq::empty()
    } else {
        with_signs(ms.drop_last()) + signs_from(ms.last(), power(2, ms.last().len()) as nat)
    }
}

/// The signed motions of a board of `d` components and squared length `p`:
/// each motion whose squares sum to `p`, in increasing lexicographic order,
/// with each choice of signs whose first nonzero component is positive.
pub open spec fn board_motions(p: int, d: nat) -> Seq<Seq<isize>> {
    with_signs(board_magnitudes(p, d))
}

/// The coordinates of the vertex of index `u`, as machine integers.
pub open spec fn coords_isize(sizes: Seq<usize>, u: nat) -> Seq<isize> {
    coordinates(sizes, u).map_values(|c: int| c as isize)
}

/// The tips of the arcs that the moves of the vertex `u` by the motion `del`
/// add to the vertex `i`.
pub open spec fn vertex_tips(
    sizes: Seq<usize>,
    wrap: Seq<bool>,
    piece: isize,
    directed: bool,
    del: Seq<isize>,
    u: nat,
    i: int,
) -> Seq<usize> {
    let x = coords_isize(sizes, u);
    moves_tips(
        u as usize,
        move_rules(sizes, wrap, x, del, piece).tips(moved_state(x, del)),
        directed,
        i,
    )
}

/// The tips of the arcs that the moves of the first `n` vertices by the
/// motion `del`, in order, add to the vertex `i`.
pub open spec fn sweep_tips(
    sizes: Seq<usize>,
    wrap: Seq<bool>,
    piece: isize,
    directed: bool,
    del: Seq<isize>,
    n: nat,
    i: int,
) -> Seq<usize>
    decreases n,
{
    if n == 0 {
        Seq::empty()
    } else {
        sweep_tips(sizes, wrap, piece, directed, del, (n - 1) as nat, i) + vertex_tips(
            sizes,
            wrap,
            piece,
            directed,
            del,
            (n - 1) as nat,
            i,
        )
    }
}

/// The tips of the arcs that the moves of the first `n` vertices by each of
/// the motions `dels`, in order, add to the vertex `i`.
pub open spec fn motions_tips(
    sizes: Seq<usize>,
    wrap: Seq<bool>,
    piece: isize,
    directed: bool,
    dels: Seq<Seq<isize>>,
    n: nat,
    i: int,
) -> Seq<usize>
    decreases dels.len(),
{
    if dels.len() == 0 {
        Seq::empty()
    } else {
        motions_tips(sizes, wrap, piece, directed, dels.drop_last(), n, i) + sweep_tips(
            sizes,
            wrap,
            piece,
            directed,
            dels.last(),
            n,
            i,
        )
    }
}

/// The tips of the arcs that the board of `sizes` with `n` vertices gets at
/// the vertex `i`: the moves of every vertex by every signed motion of
/// squared length `|piece|`, for every motion in turn, and for every vertex in
/// index order.
pub open spec fn board_tips(
    sizes: Seq<usize>,
    wrap: isize,
    piece: isize,
    directed: bool,
    n: nat,
    i: int,
) -> Seq<usize> {
    motions_tips(
        sizes,
        wrap_bits(wrap, sizes.len()),
        piece,
        directed,
        board_motions(magnitude_of(piece), sizes.len()),
        n,
        i,
    )
}

/// The tips for two runs of motions, one after the other, are those of each.
pub proof fn lemma_motions_tips_append(
    sizes: Seq<usize>,
    wrap: Seq<bool>,
    piece: isize,
    directed: bool,
    a: Seq<Seq<isize>>,
    b: Seq<Seq<isize>>,
    n: nat,
    i: int,
)
    ensures
        motions_tips(sizes, wrap, piece, directed, a + b, n, i) == motions_tips(
            sizes,
            wrap,
            piece,
            directed,
            a,
            n,
            i,
        ) + motions_tips(sizes, wrap, piece, directed, b, n, i),
    decreases b.len(),
{
    if b.len() == 0 {
        assert(a + b =~= a);
        assert(motions_tips(sizes, wrap, piece, directed, b, n, i) =~= Seq::<usize>::empty());
        assert(motions_tips(sizes, wrap, piece, directed, a, n, i) + Seq::<usize>::empty()
            =~= motions_tips(sizes, wrap, piece, directed, a, n, i));
    } else {
        assert((a + b).drop_last() =~= a + b.drop_last());
        assert((a + b).last() == b.last());
        lemma_motions_tips_append(sizes, wrap, piece, directed, a, b.drop_last(), n, i);
        let x = motions_tips(sizes, wrap, piece, directed, a, n, i);
        let y = motions_tips(sizes, wrap, piece, directed, b.drop_last(), n, i);
        let z = sweep_tips(sizes, wrap, piece, directed, b.last(), n, i);
        assert(x + y + z =~= x + (y + z));
    }
}

/// A state of machine integers whose values are the coordinates of `u` is
/// the coordinates of `u` as machine integers.
pub proof fn lemma_coords_isize(x: Seq<isize>, sizes: Seq<usize>, u: nat)
    requires
        isize_ints(x) == coordinates(sizes, u),
    ensures
        x == coords_isize(sizes, u),
{
    assert(x.len() == coordinates(sizes, u).len());
    assert forall|j: int| 0 <= j < x.len() implies x[j] == coords_isize(sizes, u)[j] by {
        assert(isize_ints(x)[j] == x[j] as int);
    }
    assert(x =~= coords_isize(sizes, u));
}

/// Adds the arcs of a board: runs through the motions `del` whose squares sum
/// to at most `|piece|`, in increasing lexicographic order, keeping the
/// partial sums of their squares in `sig`; for each whose squares sum to
/// exactly `|piece|`, adds the moves of every vertex by the motion with each
/// choice of signs, the first nonzero component staying positive.
///
/// The graph keeps its vertices, names and fields; every arc it gains is
/// fresh and goes to one of its vertices.
pub fn fill_arcs(
    graph: &mut Graph,
    component_range: &[usize],
    piece: isize,
    wrap: isize,
    directed: bool,
) -> (r: Result<(), FillArcsError>)
    requires
        -isize::MAX < piece < isize::MAX,
        all_positive(component_range@),
        product(component_range@) <= old(graph).vertices@.len(),
        product(component_range@) <= isize::MAX,
        forall|k: int|
            0 <= k < component_range@.len() ==> #[trigger] component_range@[k] <= isize::MAX,
        motions_fit(component_range@, magnitude_of(piece)),
    ensures
        arcs_grown(
            *final(graph),
            *old(graph),
            board_law(component_range@, wrap_bits(wrap, component_range@.len()), piece),
        ),
        r is Ok ==> arcs_extended(
            *final(graph),
            *old(graph),
            (|i: int|
                board_tips(
                    component_range@,
                    wrap,
                    piece,
                    directed,
                    old(graph).vertices@.len(),
                    i,
                )),
        ),
        r matches Err(FillArcsError::InitState(src, n)) ==> {
            ||| src is Wrapping && n == component_range@.len()
            ||| src is Motions && n == component_range@.len()
            ||| src is Change && n == component_range@.len() + 1
        },
        r matches Err(FillArcsError::Moves(e)) ==> e == GenMovesError::ArcAddition(
            crate::backend::ArcAddError::AuxiliaryAlloc(
                crate::backend::AllocFailureSrc::ArcCreation,
            ),
        ),
{
    let ghost law = board_law(component_range@, wrap_bits(wrap, component_range@.len()), piece);
    proof {
        lemma_arcs_grown_refl(*graph, law);
    }
    let d = component_range.len();
    let (wrap_flags, mut del, mut sig) = match init_state(wrap, d) {
        Ok(state) => state,
        Err(InitStateError::AuxiliaryAlloc(src, n)) => {
            return Err(FillArcsError::InitState(src, n));
        },
    };
    let piece_unsigned = magnitude(piece);
    let ghost p = piece_unsigned as int;
    let ghost b = p + 1;
    let ghost order = graph.vertices@.len();
    let ghost g0 = *graph;
    let ghost all_m = board_magnitudes(p, d as nat);
    let ghost mut done_m: Seq<Seq<isize>> = Seq::empty();
    let ghost mut fuel_m: nat = power(b, d as nat) as nat;
    proof {
        assert(del@ =~= Seq::new(d as nat, |k: int| 0isize));
        assert(all_m =~= done_m + motions_after(del@, p, fuel_m));
        lemma_arcs_extended_refl(
            g0,
            (|i: int|
                motions_tips(
                    component_range@,
                    wrap_flags@,
                    piece,
                    directed,
                    with_signs(done_m),
                    order,
                    i,
                )),
        );
        assert(sum_squares(del@, d as nat) == 0) by {
            lemma_sum_squares_zero_tail(del@, 0, d as nat);
        }
        assert forall|j: int| 0 <= j <= d implies #[trigger] sig@[j] as int == sum_squares(
            del@,
            j as nat,
        ) by {
            lemma_sum_squares_zero_tail(del@, 0, j as nat);
        }
        assert forall|j: int| 0 <= j < d implies 0 <= #[trigger] motion_digits(del@)[j] < b by {}
        lemma_lex_rank_bounds(motion_digits(del@), b);
    }
    loop
        invariant
            d == component_range@.len(),
            d < usize::MAX,
            p == piece_unsigned as int,
            b == p + 1,
            p < isize::MAX,
            motions_consistent(del@, sig@, d as nat, p),
            law == board_law(component_range@, wrap_bits(wrap, component_range@.len()), piece),
            piece_unsigned as int == magnitude_of(piece),
            arcs_grown(*graph, *old(graph), law),
            wrap_flags@ == wrap_bits(wrap, d as nat),
            all_positive(component_range@),
            product(component_range@) <= old(graph).vertices@.len(),
            product(component_range@) <= isize::MAX,
            forall|k: int| 0 <= k < d ==> #[trigger] component_range@[k] <= isize::MAX,
            motions_fit(component_range@, p),
            0 <= lex_rank(motion_digits(del@), b) < power(b, d as nat),
            g0 == *old(graph),
            order == g0.vertices@.len(),
            all_m == board_magnitudes(p, d as nat),
            all_m == done_m + motions_after(del@, p, fuel_m),
            fuel_m as int >= power(b, d as nat) - lex_rank(motion_digits(del@), b),
            del@.len() == d,
            arcs_extended(
                *graph,
                g0,
                (|i: int|
                    motions_tips(
                        component_range@,
                        wrap_flags@,
                        piece,
                        directed,
                        with_signs(done_m),
                        order,
                        i,
                    )),
            ),
        decreases power(b, d as nat) - lex_rank(motion_digits(del@), b),
    {
        let ghost del0 = del@;
        let ghost sig0 = sig@;
        let mut k: usize = d;
        let mut found: Option<usize> = None;
        while k > 0
            invariant_except_break
                k <= d,
                found is None,
                del@.len() == d,
                advance_from(del0, p, d as nat) == advance_from(del@, p, k as nat),
                forall|j: int| 0 <= j < k ==> #[trigger] del@[j] == del0[j],
                forall|j: int| k <= j < d ==> #[trigger] del@[j] == 0,
            invariant
                d == component_range@.len(),
                sig@ == sig0,
                p == piece_unsigned as int,
                p < isize::MAX,
                motions_consistent(del0, sig0, d as nat, p),
            ensures
                del@.len() == d,
                found is None ==> advance_from(del0, p, d as nat) is None,
                found is Some ==> advance_from(del0, p, d as nat) == Some(del@),
                found is None ==> forall|j: int| 0 <= j < d ==> #[trigger] del@[j] == 0,
                found matches Some(i) ==> {
                    &&& i < d
                    &&& forall|j: int| 0 <= j < i ==> #[trigger] del@[j] == del0[j]
                    &&& forall|j: int| i < j < d ==> #[trigger] del@[j] == 0
                    &&& del@[i as int] == del0[i as int] + 1
                    &&& sig0[i as int] + del@[i as int] * del@[i as int] <= p
                },
            decreases k,
        {
            k = k - 1;
            let dk = del[k];
            let s = sig[k];
            proof {
                lemma_sum_squares_monotone(del0, k as nat, d as nat);
                assert(dk * dk <= p);
                assert(dk <= p) by (nonlinear_arith)
                    requires
                        dk * dk <= p,
                        dk >= 0,
                ;
                lemma_sum_squares_monotone(del0, 0, k as nat);
            }
            let sq = saturating_square(dk + 1) as usize;
            let ghost cur = del@;
            proof {
                lemma_sum_squares_prefix(del0, cur, k as nat);
                assert(s as int == sum_squares(cur, k as nat));
                assert(sum_squares(cur, k as nat) >= 0) by {
                    lemma_sum_squares_monotone(del0, 0, k as nat);
                }
                assert((s + sq > piece_unsigned) == (sum_squares(cur, k as nat) + (cur[k as int] + 1)
                    * (cur[k as int] + 1) > p));
                assert(advance_from(cur, p, (k + 1) as nat) == if sum_squares(cur, k as nat) + (
                cur[k as int] + 1) * (cur[k as int] + 1) > p {
                    advance_from(cur.update(k as int, 0), p, k as nat)
                } else {
                    Some(cur.update(k as int, (cur[k as int] + 1) as isize))
                });
            }
            if s + sq > piece_unsigned {
                del.set(k, 0);
            } else {
                del.set(k, dk + 1);
                found = Some(k);
                break;
            }
        }
        proof {
            assert(fuel_m >= 1);
            assert(motions_after(del0, p, fuel_m) == match advance_from(del0, p, d as nat) {
                None => Seq::empty(),
                Some(n) => (if sum_squares(n, n.len()) == p {
                    seq![n]
                } else {
                    Seq::empty()
                }) + motions_after(n, p, (fuel_m - 1) as nat),
            });
        }
        match found {
            None => {
                proof {
                    assert(all_m =~= done_m);
                    assert(board_tips(component_range@, wrap, piece, directed, order, 0) == motions_tips(
                        component_range@,
                        wrap_flags@,
                        piece,
                        directed,
                        with_signs(done_m),
                        order,
                        0,
                    ));
                    lemma_arcs_extended_congruent(
                        *graph,
                        g0,
                        (|i: int|
                            motions_tips(
                                component_range@,
                                wrap_flags@,
                                piece,
                                directed,
                                with_signs(done_m),
                                order,
                                i,
                            )),
                        (|i: int| board_tips(component_range@, wrap, piece, directed, order, i)),
                    );
                }
                return Ok(());
            },
            Some(i) => {
                let di = del[i];
                let target = sig[i];
                let sq = saturating_square(di) as usize;
                let ghost del1 = del@;
                proof {
                    lemma_sum_squares_prefix(del0, del1, i as nat);
                    assert(target as int == sum_squares(del1, i as nat));
                    assert(target + di * di <= p);
                    assert(sq as int == di * di);
                }
                let mut s_idx: usize = i + 1;
                while s_idx < d + 1
                    invariant
                        i < s_idx <= d + 1,
                        i < d,
                        d < usize::MAX,
                        del1.len() == d,
                        sig0.len() == d + 1,
                        d == component_range@.len(),
                        del@ == del1,
                        sig@.len() == d + 1,
                        target as int == sum_squares(del1, i as nat),
                        sq as int == di * di,
                        del1[i as int] == di,
                        forall|j: int| 0 <= j <= i ==> #[trigger] sig@[j] == sig0[j],
                        forall|j: int| i < j < s_idx ==> #[trigger] sig@[j] as int == target + sq,
                        target + sq <= p,
                        p < isize::MAX,
                    decreases d + 1 - s_idx,
                {
                    sig.set(s_idx, target + sq);
                    s_idx = s_idx + 1;
                }
                proof {
                    assert forall|j: int| 0 <= j <= d implies #[trigger] sig@[j] as int
                        == sum_squares(del1, j as nat) by {
                        if j <= i {
                            lemma_sum_squares_prefix(del0, del1, j as nat);
                        } else {
                            lemma_sum_squares_zero_tail(del1, (i + 1) as nat, j as nat);
                        }
                    }
                    lemma_sum_squares_zero_tail(del1, (i + 1) as nat, d as nat);
                    assert(sum_squares(del1, d as nat) <= p);
                    assert forall|j: int| 0 <= j < d implies 0 <= #[trigger] motion_digits(del1)[j]
                        < b by {
                        lemma_sum_squares_monotone(del1, j as nat, d as nat);
                        lemma_sum_squares_monotone(del1, 0, j as nat);
                        let x = del1[j];
                        assert(x <= p) by (nonlinear_arith)
                            requires
                                x * x <= p,
                                x >= 0,
                        ;
                    }
                    assert forall|j: int| 0 <= j < d implies 0 <= #[trigger] motion_digits(del0)[j]
                        < b by {
                        lemma_sum_squares_monotone(del0, j as nat, d as nat);
                        lemma_sum_squares_monotone(del0, 0, j as nat);
                        let x = del0[j];
                        assert(x <= p) by (nonlinear_arith)
                            requires
                                x * x <= p,
                                x >= 0,
                        ;
                    }
                    lemma_lex_rank_increment(motion_digits(del0), motion_digits(del1), b, i as int);
                    lemma_lex_rank_bounds(motion_digits(del1), b);
                }
                let ghost is_swept = sum_squares(del1, d as nat) == p;
                proof {
                    let rest = motions_after(del1, p, (fuel_m - 1) as nat);
                    let head = if is_swept {
                        seq![del1]
                    } else {
                        Seq::<Seq<isize>>::empty()
                    };
                    assert(all_m == done_m + (head + rest));
                    assert(done_m + (head + rest) =~= (done_m + head) + rest);
                    assert(sig@[d as int] as int == sum_squares(del1, d as nat));
                }
                if sig[d] == piece_unsigned {
                    let ghost before = *graph;
                    proof {
                        assert forall|k: int| 0 <= k < d implies #[trigger] component_range@[k]
                            + del@[k] <= isize::MAX by {
                            assert(0 <= motion_digits(del1)[k] < b);
                            lemma_sum_squares_monotone(del1, k as nat, d as nat);
                            lemma_sum_squares_monotone(del1, 0, k as nat);
                            assert(del1[k] * del1[k] <= p);
                            assert(motion_fits(component_range@[k], p, del1[k] as int));
                        }
                        assert forall|j: int| 0 <= j < d implies 0 <= #[trigger] del@[j]
                            < isize::MAX by {
                            assert(0 <= motion_digits(del1)[j] < b);
                        }
                        assert(sig@[d as int] as int == sum_squares(del1, d as nat));
                        assert(sig@[d as int] == piece_unsigned);
                        assert(del@.len() == d);
                        assert(sum_squares(del@, del@.len()) == magnitude_of(piece));
                    }
                    let swept = sweep_moves(
                        graph,
                        component_range,
                        &wrap_flags,
                        &mut del,
                        &sig,
                        piece,
                        directed,
                    );
                    proof {
                        assert(board_law(component_range@, wrap_flags@, piece) == law);
                        lemma_arcs_grown_trans(*old(graph), before, *graph, law);
                    }
                    match swept {
                        Ok(()) => {},
                        Err(e) => {
                            return Err(e);
                        },
                    }
                    proof {
                        let old_signs = with_signs(done_m);
                        let new_signs = signs_from(del1, power(2, d as nat) as nat);
                        let next_m = done_m.push(del1);
                        assert(next_m.drop_last() =~= done_m);
                        assert(next_m.last() == del1);
                        assert(with_signs(next_m) == old_signs + new_signs);
                        assert forall|i: int| 0 <= i < order implies #[trigger] motions_tips(
                            component_range@,
                            wrap_flags@,
                            piece,
                            directed,
                            with_signs(next_m),
                            order,
                            i,
                        ) == motions_tips(
                            component_range@,
                            wrap_flags@,
                            piece,
                            directed,
                            old_signs,
                            order,
                            i,
                        ) + motions_tips(
                            component_range@,
                            wrap_flags@,
                            piece,
                            directed,
                            new_signs,
                            order,
                            i,
                        ) by {
                            lemma_motions_tips_append(
                                component_range@,
                                wrap_flags@,
                                piece,
                                directed,
                                old_signs,
                                new_signs,
                                order,
                                i,
                            );
                        }
                        lemma_arcs_extended_trans(
                            g0,
                            before,
                            *graph,
                            (|i: int|
                                motions_tips(
                                    component_range@,
                                    wrap_flags@,
                                    piece,
                                    directed,
                                    old_signs,
                                    order,
                                    i,
                                )),
                            (|i: int|
                                motions_tips(
                                    component_range@,
                                    wrap_flags@,
                                    piece,
                                    directed,
                                    new_signs,
                                    order,
                                    i,
                                )),
                            (|i: int|
                                motions_tips(
                                    component_range@,
                                    wrap_flags@,
                                    piece,
                                    directed,
                                    with_signs(next_m),
                                    order,
                                    i,
                                )),
                        );
                        done_m = next_m;
                    }
                }
                proof {
                    fuel_m = (fuel_m - 1) as nat;
                }
            },
        }
    }
}

/// Which components of a board wrap around.
#[derive(Debug)]
pub enum WrapBuilderRepr {
    SpecificComponents(Vec<usize>),
    AllComponents,
}

/// Failure to set up a description of wrapping components.
#[derive(Debug)]
pub enum WrapBuilderError {
    AuxiliaryAlloc,
}

/// A description, under construction, of which components wrap around.
#[derive(Debug)]
pub struct WrapBuilder(pub Option<WrapBuilderRepr>);

impl Default for WrapBuilder {
    fn default() -> (r: Self)
        ensures
            r.0 is None,
    {
        WrapBuilder(None)
    }
}

impl WrapBuilder {
    /// A description in which every component wraps when no number of
    /// dimensions is given, and otherwise an empty list of wrapping
    /// components with room for `dimensions` of them.
    pub fn new(dimensions: Option<usize>) -> (r: Result<Self, WrapBuilderError>)
        ensures
            dimensions is None ==> (r matches Ok(w) && w.0 matches Some(
                WrapBuilderRepr::AllComponents,
            )),
            dimensions is Some ==> (r matches Ok(w) ==> (w.0 matches Some(
                WrapBuilderRepr::SpecificComponents(v),
            ) && v@.len() == 0)),
            r matches Err(e) ==> e is AuxiliaryAlloc && dimensions is Some,
            dimensions matches Some(k) && k * vstd::layout::size_of::<usize>() > isize::MAX
                ==> r is Err,
    {
        match dimensions {
            Some(dims) => {
                let mut components: Vec<usize> = Vec::new();
                if reserve_room(&mut components, as_usize(dims)).is_err() {
                    return Err(WrapBuilderError::AuxiliaryAlloc);
                }
                Ok(WrapBuilder(Some(WrapBuilderRepr::SpecificComponents(components))))
            },
            None => Ok(WrapBuilder(Some(WrapBuilderRepr::AllComponents))),
        }
    }
}

/// What went wrong while the vertices of a board were being created.
#[derive(Debug)]
pub enum GraphBuildErrorKind {
    ComponentSizesOutOfBounds,
    GraphCreationFailed(GraphCreationError),
}

/// A failure of a step of `board` that its callers are not meant to tell apart.
#[derive(Debug)]
pub enum BoardFailure {
    BuildGraph(BuildGraphError),
    FillArcs(FillArcsError),
}

/// Failure to generate a board.
#[derive(Debug)]
pub enum BoardError {
    Normalization,
    GraphBuild(GraphBuildErrorKind),
    GraphNaming,
    Other(BoardFailure),
}

impl BoardError {
    /// The error that a failure to build the vertices of a board is reported as.
    pub open spec fn spec_from_build(e: BuildGraphError) -> BoardError {
        match e {
            BuildGraphError::ComponentSizesOutOfBounds => BoardError::GraphBuild(
                GraphBuildErrorKind::ComponentSizesOutOfBounds,
            ),
            BuildGraphError::GraphCreationFailed(inner) => BoardError::GraphBuild(
                GraphBuildErrorKind::GraphCreationFailed(inner),
            ),
            other => BoardError::Other(BoardFailure::BuildGraph(other)),
        }
    }

    /// Reports a failure to build the vertices of a board.
    pub fn from_build(e: BuildGraphError) -> (r: BoardError)
        ensures
            r == Self::spec_from_build(e),
    {
        match e {
            BuildGraphError::ComponentSizesOutOfBounds => BoardError::GraphBuild(
                GraphBuildErrorKind::ComponentSizesOutOfBounds,
            ),
            BuildGraphError::GraphCreationFailed(inner) => BoardError::GraphBuild(
                GraphBuildErrorKind::GraphCreationFailed(inner),
            ),
            other => BoardError::Other(BoardFailure::BuildGraph(other)),
        }
    }
}

/// The parameters that name a board, in order.
pub open spec fn board_params(
    n1: isize,
    n2: isize,
    n3: isize,
    n4: isize,
    piece: isize,
    wrap: isize,
) -> Seq<isize> {
    seq![n1, n2, n3, n4, piece, wrap]
}

/// The inputs on which `board` returns: where the cells fit in an `isize`,
/// `|piece|` is below `isize::MAX` (beyond, the saturating squares no longer
/// bound the motions by `|piece|`) and a coordinate on the board moved by a
/// motion component fits in an `isize` (the moves would overflow otherwise).
pub open spec fn board_admissible(
    n1: isize,
    n2: isize,
    n3: isize,
    n4: isize,
    piece: isize,
    wrap: isize,
) -> bool {
    let sizes = normalized_sizes(n1, n2, n3, n4);
    product(sizes) <= isize::MAX ==> {
        &&& -isize::MAX < piece < isize::MAX
        &&& motions_fit(sizes, magnitude_of(piece))
    }
}

/// The graph `board(n1, n2, n3, n4, piece, wrap, directed)`: the vertices of
/// the board of the normalized sizes, whose product fits in an `isize`, the
/// board's name, and at each vertex exactly the fresh arcs, in order, that
/// the moves of every vertex by every signed motion of squared length
/// `|piece|` add to it (`board_tips`); each goes to a vertex of the board
/// that the piece reaches by such a move, once or, for a rider, repeated,
/// with the components that `wrap` names wrapping around.
pub open spec fn is_board(
    g: Graph,
    n1: isize,
    n2: isize,
    n3: isize,
    n4: isize,
    piece: isize,
    wrap: isize,
    directed: bool,
) -> bool {
    let sizes = normalized_sizes(n1, n2, n3, n4);
    &&& g.vertices@.len() == product(sizes)
    &&& product(sizes) <= isize::MAX
    &&& forall|t: int|
        0 <= t < g.vertices@.len() ==> is_board_cell(
            #[trigger] g.vertices@[t],
            coordinates(sizes, t as nat),
        )
    &&& forall|t: int, j: int|
        0 <= t < g.vertices@.len() && 0 <= j < g.vertices@[t].arcs@.len() ==> {
            &&& fresh_within(#[trigger] g.vertices@[t].arcs@[j], g.vertices@.len())
            &&& board_law(sizes, wrap_bits(wrap, sizes.len()), piece).allows(
                t,
                g.vertices@[t].arcs@[j].tip.unwrap() as int,
            )
        }
    &&& forall|t: int|
        0 <= t < g.vertices@.len() ==> arcs_exactly(
            #[trigger] g.vertices@[t],
            board_tips(sizes, wrap, piece, directed, g.vertices@.len(), t),
        )
    &&& g.fields.usizes is None
    &&& g.fields.strings is None
    &&& g.id@ == board_name(board_params(n1, n2, n3, n4, piece, wrap), directed)
}

/// The number of entries of `s` that are `v`.
pub open spec fn tip_count(s: Seq<usize>, v: int) -> nat
    decreases s.len(),
{
    if s.len() == 0 {
        0
    } else {
        tip_count(s.drop_last(), v) + if s.last() as int == v {
            1nat
        } else {
            0nat
        }
    }
}

/// Counts add up over concatenation.
pub proof fn lemma_tip_count_append(a: Seq<usize>, b: Seq<usize>, v: int)
    ensures
        tip_count(a + b, v) == tip_count(a, v) + tip_count(b, v),
    decreases b.len(),
{
    if b.len() == 0 {
        assert(a + b =~= a);
    } else {
        assert((a + b).drop_last() =~= a + b.drop_last());
        assert((a + b).last() == b.last());
        lemma_tip_count_append(a, b.drop_last(), v);
    }
}

/// A one-entry sequence counts its entry once.
pub proof fn lemma_tip_count_single(x: usize, v: int)
    ensures
        tip_count(seq![x], v) == if x as int == v {
            1nat
        } else {
            0nat
        },
{
    let s1 = seq![x];
    assert(s1.drop_last() =~= Seq::<usize>::empty());
    assert(tip_count(Seq::<usize>::empty(), v) == 0);
    assert(s1.last() == x);
    assert(tip_count(s1, v) == tip_count(s1.drop_last(), v) + if s1.last() as int == v {
        1nat
    } else {
        0nat
    });
}

/// An undirected move adds as many arcs from `u` to `v` as from `v` to `u`.
pub proof fn lemma_move_tips_symmetric(src: usize, dst: usize, u: int, v: int)
    ensures
        tip_count(move_tips(src, dst, false, u), v) == tip_count(move_tips(src, dst, false, v), u),
{
    let e = Seq::<usize>::empty();
    assert(tip_count(e, u) == 0 && tip_count(e, v) == 0);
    lemma_tip_count_single(dst, u);
    lemma_tip_count_single(dst, v);
    lemma_tip_count_single(src, u);
    lemma_tip_count_single(src, v);
    let au = if u == src { seq![dst] } else { e };
    let bu = if u == dst { seq![src] } else { e };
    let av = if v == src { seq![dst] } else { e };
    let bv = if v == dst { seq![src] } else { e };
    lemma_tip_count_append(au, bu, v);
    lemma_tip_count_append(av, bv, u);
}

/// Undirected moves from `src` add as many arcs from `u` to `v` as from `v`
/// to `u`.
pub proof fn lemma_moves_tips_symmetric(src: usize, tips: Seq<usize>, u: int, v: int)
    ensures
        tip_count(moves_tips(src, tips, false, u), v) == tip_count(
            moves_tips(src, tips, false, v),
            u,
        ),
    decreases tips.len(),
{
    if tips.len() > 0 {
        lemma_moves_tips_symmetric(src, tips.drop_last(), u, v);
        lemma_move_tips_symmetric(src, tips.last(), u, v);
        lemma_tip_count_append(
            moves_tips(src, tips.drop_last(), false, u),
            move_tips(src, tips.last(), false, u),
            v,
        );
        lemma_tip_count_append(
            moves_tips(src, tips.drop_last(), false, v),
            move_tips(src, tips.last(), false, v),
            u,
        );
    }
}

/// The undirected moves of the first `n` vertices by one motion add as many
/// arcs from `u` to `v` as from `v` to `u`.
pub proof fn lemma_sweep_tips_symmetric(
    sizes: Seq<usize>,
    wrap: Seq<bool>,
    piece: isize,
    del: Seq<isize>,
    n: nat,
    u: int,
    v: int,
)
    ensures
        tip_count(sweep_tips(sizes, wrap, piece, false, del, n, u), v) == tip_count(
            sweep_tips(sizes, wrap, piece, false, del, n, v),
            u,
        ),
    decreases n,
{
    if n > 0 {
        let m = (n - 1) as nat;
        lemma_sweep_tips_symmetric(sizes, wrap, piece, del, m, u, v);
        let x = coords_isize(sizes, m);
        lemma_moves_tips_symmetric(
            m as usize,
            move_rules(sizes, wrap, x, del, piece).tips(moved_state(x, del)),
            u,
            v,
        );
        lemma_tip_count_append(
            sweep_tips(sizes, wrap, piece, false, del, m, u),
            vertex_tips(sizes, wrap, piece, false, del, m, u),
            v,
        );
        lemma_tip_count_append(
            sweep_tips(sizes, wrap, piece, false, del, m, v),
            vertex_tips(sizes, wrap, piece, false, del, m, v),
            u,
        );
    }
}

/// The undirected moves of the first `n` vertices by each of the motions
/// `dels` add as many arcs from `u` to `v` as from `v` to `u`.
pub proof fn lemma_motions_tips_symmetric(
    sizes: Seq<usize>,
    wrap: Seq<bool>,
    piece: isize,
    dels: Seq<Seq<isize>>,
    n: nat,
    u: int,
    v: int,
)
    ensures
        tip_count(motions_tips(sizes, wrap, piece, false, dels, n, u), v) == tip_count(
            motions_tips(sizes, wrap, piece, false, dels, n, v),
            u,
        ),
    decreases dels.len(),
{
    if dels.len() > 0 {
        lemma_motions_tips_symmetric(sizes, wrap, piece, dels.drop_last(), n, u, v);
        lemma_sweep_tips_symmetric(sizes, wrap, piece, dels.last(), n, u, v);
        lemma_tip_count_append(
            motions_tips(sizes, wrap, piece, false, dels.drop_last(), n, u),
            sweep_tips(sizes, wrap, piece, false, dels.last(), n, u),
            v,
        );
        lemma_tip_count_append(
            motions_tips(sizes, wrap, piece, false, dels.drop_last(), n, v),
            sweep_tips(sizes, wrap, piece, false, dels.last(), n, v),
            u,
        );
    }
}

/// The tips of the arcs of a vertex, in order.
pub open spec fn arc_tips(v: Vertex) -> Seq<usize> {
    v.arcs@.map_values(|a: crate::backend::arc::Arc| a.tip.unwrap())
}

/// On an undirected board, every edge is stored as two opposite arcs: each
/// vertex `u` has as many arcs to `v` as `v` has to `u`.
pub proof fn lemma_undirected_board_arcs_paired(
    g: Graph,
    n1: isize,
    n2: isize,
    n3: isize,
    n4: isize,
    piece: isize,
    wrap: isize,
    u: int,
    v: int,
)
    requires
        is_board(g, n1, n2, n3, n4, piece, wrap, false),
        0 <= u < g.vertices@.len(),
        0 <= v < g.vertices@.len(),
    ensures
        tip_count(arc_tips(g.vertices@[u]), v) == tip_count(arc_tips(g.vertices@[v]), u),
{
    let sizes = normalized_sizes(n1, n2, n3, n4);
    let n = g.vertices@.len();
    let tu = board_tips(sizes, wrap, piece, false, n, u);
    let tv = board_tips(sizes, wrap, piece, false, n, v);
    assert(arcs_exactly(g.vertices@[u], tu));
    assert(arcs_exactly(g.vertices@[v], tv));
    assert forall|j: int| 0 <= j < tu.len() implies arc_tips(g.vertices@[u])[j] == tu[j] by {
        assert(g.vertices@[u].arcs@[j].is_fresh_to(tu[j]));
    }
    assert forall|j: int| 0 <= j < tv.len() implies arc_tips(g.vertices@[v])[j] == tv[j] by {
        assert(g.vertices@[v].arcs@[j].is_fresh_to(tv[j]));
    }
    assert(arc_tips(g.vertices@[u]) =~= tu);
    assert(arc_tips(g.vertices@[v]) =~= tv);
    lemma_motions_tips_symmetric(
        sizes,
        wrap_bits(wrap, sizes.len()),
        piece,
        board_motions(magnitude_of(piece), sizes.len()),
        n,
        u,
        v,
    );
}

/// The arcs of the vertex `v` are fresh arcs to each of `tips`, in order.
pub open spec fn arcs_exactly(v: Vertex, tips: Seq<usize>) -> bool {
    &&& v.arcs@.len() == tips.len()
    &&& forall|j: int| 0 <= j < tips.len() ==> (#[trigger] v.arcs@[j]).is_fresh_to(tips[j])
}

/// Normalized sizes are at most as many as the magnitude of an argument.
pub proof fn lemma_normalized_sizes_len(n1: isize, n2: isize, n3: isize, n4: isize)
    ensures
        normalized_sizes(n1, n2, n3, n4).len() <= isize::MAX as int + 1,
{
}

/// Generates the board `board(n1, n2, n3, n4, piece, wrap, directed)`: lays
/// out the component sizes, builds a vertex per cell, names the graph and
/// adds the arcs of the piece's moves.
pub fn board(
    n1: isize,
    n2: isize,
    n3: isize,
    n4: isize,
    piece: NonZeroIsize,
    wrap: isize,
    directed: bool,
) -> (r: Result<Graph, BoardError>)
    requires
        board_admissible(n1, n2, n3, n4, piece@, wrap),
    ensures
        r matches Ok(g) ==> is_board(g, n1, n2, n3, n4, piece@, wrap, directed),
        r matches Err(BoardError::GraphBuild(GraphBuildErrorKind::ComponentSizesOutOfBounds))
            ==> product(normalized_sizes(n1, n2, n3, n4)) > isize::MAX,
        product(normalized_sizes(n1, n2, n3, n4)) > isize::MAX ==> r is Err,
        normalized_sizes(n1, n2, n3, n4).len() * vstd::layout::size_of::<usize>() > isize::MAX
            ==> r matches Err(BoardError::Normalization),
{
    let component_ranges = match normalize_board_size(n1, n2, n3, n4) {
        Ok(v) => v,
        Err(NormalizationError::ComponentRangesAllocFailed) => {
            return Err(BoardError::Normalization);
        },
    };
    proof {
        lemma_normalized_sizes_positive(n1, n2, n3, n4);
        lemma_normalized_sizes_len(n1, n2, n3, n4);
    }
    let mut graph = match build_graph(component_ranges.as_slice()) {
        Ok(g) => g,
        Err(e) => {
            return Err(BoardError::from_build(e));
        },
    };
    let piece_value = piece.get();
    let params: [isize; 6] = [n1, n2, n3, n4, piece_value, wrap];
    assert(params@ == board_params(n1, n2, n3, n4, piece@, wrap));
    match name_graph(&mut graph, params.as_slice(), directed) {
        Ok(()) => {},
        Err(_) => {
            return Err(BoardError::GraphNaming);
        },
    }
    let ghost named = graph;
    match fill_arcs(&mut graph, component_ranges.as_slice(), piece_value, wrap, directed) {
        Ok(()) => {},
        Err(e) => {
            return Err(BoardError::Other(BoardFailure::FillArcs(e)));
        },
    }
    proof {
        let sizes = normalized_sizes(n1, n2, n3, n4);
        assert forall|t: int| 0 <= t < graph.vertices@.len() implies is_board_cell(
            #[trigger] graph.vertices@[t],
            coordinates(sizes, t as nat),
        ) by {
            assert(is_board_cell(named.vertices@[t], coordinates(sizes, t as nat)));
            assert(graph.vertices@[t].id == named.vertices@[t].id);
            assert(graph.vertices@[t].fields == named.vertices@[t].fields);
        }
        assert forall|t: int, j: int|
            0 <= t < graph.vertices@.len() && 0 <= j < graph.vertices@[t].arcs@.len() implies {
            &&& fresh_within(#[trigger] graph.vertices@[t].arcs@[j], graph.vertices@.len())
            &&& board_law(sizes, wrap_bits(wrap, sizes.len()), piece@).allows(
                t,
                graph.vertices@[t].arcs@[j].tip.unwrap() as int,
            )
        } by {
            assert(named.vertices@[t].arcs@.len() == 0);
        }
        assert forall|t: int| 0 <= t < graph.vertices@.len() implies arcs_exactly(
            #[trigger] graph.vertices@[t],
            board_tips(sizes, wrap, piece@, directed, graph.vertices@.len(), t),
        ) by {
            let tips = board_tips(sizes, wrap, piece@, directed, graph.vertices@.len(), t);
            assert(vertex_extended(graph.vertices@[t], named.vertices@[t], tips));
            assert(named.vertices@[t].arcs@.len() == 0);
            assert forall|j: int| 0 <= j < tips.len() implies (#[trigger] graph.vertices@[t].arcs@[
                j
            ]).is_fresh_to(tips[j]) by {
                assert(graph.vertices@[t].arcs@[0 + j].is_fresh_to(tips[j]));
            }
        }
    }
    Ok(graph)
}

/// The signs of the motions: one for a negative motion, zero otherwise.
pub open spec fn sign_bits(del: Seq<isize>) -> Seq<int> {
    del.map_values(|x: isize| if x < 0 { 1int } else { 0int })
}

/// The carry of the vertex counter, from index `k - 1` down: an entry one
/// short of its size starts over from zero and the carry goes on to the left;
/// any other entry is moved on and the carry stops.
pub open spec fn counter_carry(state: Seq<isize>, ranges: Seq<usize>, k: nat) -> Seq<isize>
    decreases k,
{
    if k == 0 {
        state
    } else {
        let j = (k - 1) as int;
        if state[j] + 1 == ranges[j] as int {
            counter_carry(state.update(j, 0), ranges, (k - 1) as nat)
        } else {
            state.update(j, (state[j] + 1) as isize)
        }
    }
}

/// One step of the vertex counter.
pub open spec fn counter_step(state: Seq<isize>, ranges: Seq<usize>) -> Seq<isize> {
    counter_carry(state, ranges, index_len(state, ranges))
}

/// The counter's entries lie on the board: one per component, each from zero
/// to below its size.
pub open spec fn counter_in_range(state: Seq<isize>, ranges: Seq<usize>) -> bool {
    &&& state.len() == ranges.len()
    &&& forall|k: int|
        0 <= k < state.len() ==> 0 <= #[trigger] state[k] < ranges[k] <= isize::MAX
}

/// The carry of the vertex counter keeps its entries on the board.
pub proof fn lemma_counter_carry_in_range(state: Seq<isize>, ranges: Seq<usize>, k: nat)
    requires
        counter_in_range(state, ranges),
        k <= state.len(),
    ensures
        counter_in_range(counter_carry(state, ranges, k), ranges),
    decreases k,
{
    if k > 0 {
        let j = (k - 1) as int;
        if state[j] + 1 == ranges[j] as int {
            lemma_counter_carry_in_range(state.update(j, 0), ranges, (k - 1) as nat);
        }
    }
}

/// Flipping signs keeps partial sums of squares.
pub proof fn lemma_sum_squares_signs(a: Seq<isize>, b: Seq<isize>, k: nat)
    requires
        k <= a.len(),
        k <= b.len(),
        forall|j: int| 0 <= j < k ==> #[trigger] a[j] == b[j] || a[j] == -b[j],
    ensures
        sum_squares(a, k) == sum_squares(b, k),
    decreases k,
{
    if k > 0 {
        lemma_sum_squares_signs(a, b, (k - 1) as nat);
        let x = a[k - 1] as int;
        let y = b[k - 1] as int;
        assert(x * x == y * y) by (nonlinear_arith)
            requires
                x == y || x == -y,
        ;
    }
}

/// A partial sum of squares of zero covers zero motions only.
pub proof fn lemma_sum_squares_zero(a: Seq<isize>, k: nat)
    requires
        k <= a.len(),
        sum_squares(a, k) == 0,
    ensures
        forall|j: int| 0 <= j < k ==> #[trigger] a[j] == 0,
    decreases k,
{
    if k > 0 {
        let x = a[k - 1] as int;
        assert(x * x >= 0) by (nonlinear_arith);
        lemma_sum_squares_monotone(a, 0, (k - 1) as nat);
        assert(sum_squares(a, (k - 1) as nat) >= 0);
        assert(x * x == 0);
        assert(x == 0) by (nonlinear_arith)
            requires
                x * x == 0,
        ;
        lemma_sum_squares_zero(a, (k - 1) as nat);
    }
}

/// The moves from one vertex for one motion: the motion is applied to the
/// vertex's coordinates, the moves are generated from there, and the vertex
/// counter moves on.
fn sweep_vertex(
    graph: &mut Graph,
    vertex_idx: usize,
    current_state: &mut Vec<isize>,
    post_state: &mut Vec<isize>,
    del: &Vec<isize>,
    component_range: &[usize],
    wrap: &Vec<bool>,
    directed: bool,
    piece: isize,
) -> (r: Result<(), GenMovesError>)
    requires
        vertex_idx < old(graph).vertices@.len(),
        old(current_state)@.len() == old(post_state)@.len(),
        counter_in_range(old(current_state)@, component_range@),
        move_rules(component_range@, wrap@, old(current_state)@, del@, piece).board_fits(
            old(graph).vertices@.len(),
        ),
        isize_ints(old(current_state)@) == coordinates(component_range@, vertex_idx as nat),
        sum_squares(del@, del@.len()) == magnitude_of(piece),
    ensures
        arcs_grown(*final(graph), *old(graph), board_law(component_range@, wrap@, piece)),
        r is Ok ==> arcs_extended(
            *final(graph),
            *old(graph),
            (|i: int| vertex_tips(component_range@, wrap@, piece, directed, del@, vertex_idx as nat, i)),
        ),
        r is Ok ==> final(current_state)@ == counter_step(old(current_state)@, component_range@),
        final(post_state)@.len() == old(post_state)@.len(),
        r matches Err(e) ==> e == GenMovesError::ArcAddition(
            crate::backend::ArcAddError::AuxiliaryAlloc(crate::backend::AllocFailureSrc::ArcCreation),
        ),
{
    let ghost c0 = current_state@;
    let ghost g0 = *graph;
    let ghost order = graph.vertices@.len();
    let ghost rules = move_rules(component_range@, wrap@, c0, del@, piece);
    let n = current_state.len();
    let mut k: usize = 0;
    while k < n
        invariant
            n == c0.len(),
            k <= n,
            current_state@ == c0,
            post_state@.len() == n,
            del@.len() == n,
            counter_in_range(c0, component_range@),
            rules.board_fits(order),
            rules.ranges == component_range@,
            rules.change == del@,
            forall|j: int| 0 <= j < k ==> #[trigger] post_state@[j] == (c0[j] + del@[j]) as isize,
        decreases n - k,
    {
        assert(rules.ranges[k as int] <= isize::MAX);
        let x = current_state[k] + del[k];
        post_state.set(k, x);
        k = k + 1;
    }
    assert(post_state@ =~= moved_state(c0, del@));
    let ghost s0 = post_state@;
    proof {
        rules.lemma_defined_from(s0, order);
    }
    let moved = gen_moves(
        graph,
        vertex_idx,
        post_state,
        current_state.as_slice(),
        del.as_slice(),
        component_range,
        wrap.as_slice(),
        directed,
        piece,
    );
    proof {
        let tips = rules.tips(s0);
        let law = board_law(component_range@, wrap@, piece);
        rules.lemma_final_state_len(s0, order);
        assert forall|t: int| 0 <= t < rules.arc_count(s0) implies #[trigger] tips[t] < order
            && law.allows(vertex_idx as int, tips[t] as int) && law.allows(
            tips[t] as int,
            vertex_idx as int,
        ) by {
            lemma_tip_allowed(rules, c0, vertex_idx as int, t as nat, order);
        }
        match moved {
            Ok(()) => {
                let f = (|i: int| moves_tips(vertex_idx, tips, directed, i));
                assert forall|i: int, j: int|
                    0 <= i < order && 0 <= j < f(i).len() implies #[trigger] f(i)[j] < order
                    && law.allows(i, f(i)[j] as int) by {
                    lemma_moves_tips_within(vertex_idx, tips, directed, i, order, law);
                }
                lemma_arcs_extended_grown(*graph, g0, f, law);
                lemma_coords_isize(c0, component_range@, vertex_idx as nat);
                lemma_arcs_extended_congruent(
                    *graph,
                    g0,
                    f,
                    (|i: int|
                        vertex_tips(component_range@, wrap@, piece, directed, del@, vertex_idx as nat, i)),
                );
            },
            Err(_) => {
                let (j, first) = choose|j: nat, first: bool|
                    rules.failed_at(s0, vertex_idx, directed, j, first, *graph, g0, post_state@);
                let done = tips.take(j as int);
                let f = (|i: int|
                    moves_tips(vertex_idx, done, directed, i) + partial_move_tips(
                        vertex_idx,
                        tips[j as int],
                        first,
                        i,
                    ));
                assert forall|i: int, k: int|
                    0 <= i < order && 0 <= k < f(i).len() implies #[trigger] f(i)[k] < order
                    && law.allows(i, f(i)[k] as int) by {
                    lemma_moves_tips_within(vertex_idx, done, directed, i, order, law);
                    let a = moves_tips(vertex_idx, done, directed, i);
                    if k >= a.len() {
                        assert(tips[j as int] < order);
                    } else {
                        assert(f(i)[k] == a[k]);
                    }
                }
                lemma_arcs_extended_grown(*graph, g0, f, law);
            },
        }
    }
    moved?;
    let l = if current_state.len() <= component_range.len() {
        current_state.len()
    } else {
        component_range.len()
    };
    let ghost target = counter_step(c0, component_range@);
    let mut j: usize = l;
    while j > 0
        invariant_except_break
            j <= l,
            current_state@.len() == c0.len(),
            counter_carry(current_state@, component_range@, j as nat) == target,
            forall|i: int| 0 <= i < j ==> #[trigger] current_state@[i] == c0[i],
        invariant
            l == index_len(c0, component_range@),
            counter_in_range(c0, component_range@),
            forall|k: int|
                0 <= k < component_range@.len() ==> 1 <= #[trigger] component_range@[k]
                    <= isize::MAX,
        ensures
            current_state@ == target,
        decreases j,
    {
        j = j - 1;
        let x = current_state[j];
        if x + 1 == component_range[j] as isize {
            current_state.set(j, 0);
        } else {
            current_state.set(j, x + 1);
            break;
        }
    }
    Ok(())
}

/// The moves of every vertex for the motion `del`, and for each way of
/// giving its nonzero components signs, the first one staying positive; the
/// signs of the motion run through their combinations and come back to all
/// positive.
fn sweep_moves(
    graph: &mut Graph,
    component_range: &[usize],
    wrap: &Vec<bool>,
    del: &mut Vec<isize>,
    sig: &Vec<usize>,
    piece: isize,
    directed: bool,
) -> (r: Result<(), FillArcsError>)
    requires
        old(del)@.len() + 1 == sig@.len(),
        old(del)@.len() < usize::MAX,
        forall|j: int| 0 <= j < old(del)@.len() ==> 0 <= #[trigger] old(del)@[j] < isize::MAX,
        forall|j: int|
            0 <= j <= old(del)@.len() ==> #[trigger] sig@[j] as int == sum_squares(
                old(del)@,
                j as nat,
            ),
        old(del)@.len() >= 1,
        component_range@.len() == old(del)@.len(),
        wrap@.len() == old(del)@.len(),
        all_positive(component_range@),
        product(component_range@) <= old(graph).vertices@.len(),
        product(component_range@) <= isize::MAX,
        forall|k: int|
            0 <= k < component_range@.len() ==> #[trigger] component_range@[k] + old(del)@[k]
                <= isize::MAX,
        sum_squares(old(del)@, old(del)@.len()) == magnitude_of(piece),
    ensures
        arcs_grown(*final(graph), *old(graph), board_law(component_range@, wrap@, piece)),
        r is Ok ==> arcs_extended(
            *final(graph),
            *old(graph),
            (|i: int|
                motions_tips(
                    component_range@,
                    wrap@,
                    piece,
                    directed,
                    signs_from(old(del)@, power(2, old(del)@.len()) as nat),
                    old(graph).vertices@.len(),
                    i,
                )),
        ),
        r is Ok ==> final(del)@ == old(del)@,
        r is Err ==> {
            &&& final(del)@.len() == old(del)@.len()
            &&& forall|j: int|
                0 <= j < old(del)@.len() ==> #[trigger] final(del)@[j] == old(del)@[j]
                    || final(del)@[j] == -old(del)@[j]
        },
        r matches Err(e) ==> e == FillArcsError::AuxiliaryAlloc || e == FillArcsError::Moves(
            GenMovesError::ArcAddition(
                crate::backend::ArcAddError::AuxiliaryAlloc(
                    crate::backend::AllocFailureSrc::ArcCreation,
                ),
            ),
        ),
{
    let d = del.len();
    let ghost del0 = del@;
    let ghost g0 = *graph;
    let ghost order = graph.vertices@.len();
    let ghost law = board_law(component_range@, wrap@, piece);
    let ghost all_signs = signs_from(del0, power(2, d as nat) as nat);
    let ghost mut done: Seq<Seq<isize>> = Seq::empty();
    let ghost mut fuel: nat = power(2, d as nat) as nat;
    proof {
        lemma_lex_rank_bounds(sign_bits(del@), 2);
        lemma_arcs_grown_refl(g0, law);
        lemma_arcs_extended_refl(
            g0,
            (|i: int| motions_tips(component_range@, wrap@, piece, directed, done, order, i)),
        );
        assert(all_signs =~= done + signs_from(del@, fuel));
    }
    loop
        invariant
            all_signs == signs_from(del0, power(2, d as nat) as nat),
            all_signs == done + signs_from(del@, fuel),
            fuel as int >= power(2, d as nat) - lex_rank(sign_bits(del@), 2),
            arcs_extended(
                *graph,
                g0,
                (|i: int| motions_tips(component_range@, wrap@, piece, directed, done, order, i)),
            ),
            d == del@.len(),
            d == del0.len(),
            del0 == old(del)@,
            d + 1 == sig@.len(),
            d < usize::MAX,
            d >= 1,
            g0 == *old(graph),
            order == g0.vertices@.len(),
            law == board_law(component_range@, wrap@, piece),
            arcs_grown(*graph, g0, law),
            sum_squares(del0, d as nat) == magnitude_of(piece),
            component_range@.len() == d,
            wrap@.len() == d,
            all_positive(component_range@),
            product(component_range@) <= order,
            product(component_range@) <= isize::MAX,
            forall|k: int|
                0 <= k < d ==> #[trigger] component_range@[k] + del0[k] <= isize::MAX,
            forall|j: int| 0 <= j < d ==> 0 <= #[trigger] del0[j] < isize::MAX,
            forall|j: int| 0 <= j <= d ==> #[trigger] sig@[j] as int == sum_squares(del0, j as nat),
            forall|j: int| 0 <= j < d ==> #[trigger] del@[j] == del0[j] || del@[j] == -del0[j],
            0 <= lex_rank(sign_bits(del@), 2) < power(2, d as nat),
        decreases power(2, d as nat) - lex_rank(sign_bits(del@), 2),
    {
        let mut current_state: Vec<isize> = Vec::new();
        if current_state.try_reserve(d).is_err() {
            return Err(FillArcsError::AuxiliaryAlloc);
        }
        while current_state.len() < d
            invariant
                current_state@.len() <= d,
                forall|j: int| 0 <= j < current_state@.len() ==> #[trigger] current_state@[j] == 0,
            decreases d - current_state.len(),
        {
            current_state.push(0);
        }
        let mut post_state: Vec<isize> = Vec::new();
        if post_state.try_reserve(d).is_err() {
            return Err(FillArcsError::AuxiliaryAlloc);
        }
        while post_state.len() < d
            invariant
                post_state@.len() <= d,
            decreases d - post_state.len(),
        {
            post_state.push(0);
        }
        proof {
            assert forall|k: int| 0 <= k < d implies {
                &&& #[trigger] component_range@[k] <= isize::MAX
                &&& component_range@[k] + del@[k] <= isize::MAX
                &&& component_range@[k] - del@[k] <= isize::MAX
            } by {
                assert(component_range@[k] + del0[k] <= isize::MAX);
                assert(del@[k] == del0[k] || del@[k] == -del0[k]);
            }
            assert(counter_in_range(current_state@, component_range@));
            assert(isize_ints(current_state@) =~= coordinates(component_range@, 0));
            lemma_sum_squares_signs(del@, del0, d as nat);
        }
        let n = graph.iter().count();
        let mut vertex_idx: usize = 0;
        proof {
            assert forall|i: int| 0 <= i < order implies #[trigger] (motions_tips(
                component_range@,
                wrap@,
                piece,
                directed,
                done,
                order,
                i,
            ) + sweep_tips(component_range@, wrap@, piece, directed, del@, 0, i)) == motions_tips(
                component_range@,
                wrap@,
                piece,
                directed,
                done,
                order,
                i,
            ) by {
                assert(motions_tips(component_range@, wrap@, piece, directed, done, order, i)
                    + sweep_tips(component_range@, wrap@, piece, directed, del@, 0, i)
                    =~= motions_tips(component_range@, wrap@, piece, directed, done, order, i));
            }
            lemma_arcs_extended_congruent(
                *graph,
                g0,
                (|i: int| motions_tips(component_range@, wrap@, piece, directed, done, order, i)),
                (|i: int|
                    motions_tips(component_range@, wrap@, piece, directed, done, order, i)
                        + sweep_tips(component_range@, wrap@, piece, directed, del@, 0, i)),
            );
        }
        while vertex_idx < n
            invariant
                n == order,
                vertex_idx <= n,
                arcs_extended(
                    *graph,
                    g0,
                    (|i: int|
                        motions_tips(component_range@, wrap@, piece, directed, done, order, i)
                            + sweep_tips(
                            component_range@,
                            wrap@,
                            piece,
                            directed,
                            del@,
                            vertex_idx as nat,
                            i,
                        )),
                ),
                g0 == *old(graph),
                order == g0.vertices@.len(),
                law == board_law(component_range@, wrap@, piece),
                arcs_grown(*graph, g0, law),
                isize_ints(current_state@) == coordinates(component_range@, vertex_idx as nat),
                sum_squares(del@, d as nat) == magnitude_of(piece),
                current_state@.len() == post_state@.len(),
                counter_in_range(current_state@, component_range@),
                move_rules(component_range@, wrap@, current_state@, del@, piece).board_fits(order),
                del0 == old(del)@,
                del0.len() == d,
                forall|j: int| 0 <= j < d ==> #[trigger] del@[j] == del0[j] || del@[j] == -del0[j],
                component_range@.len() == d,
                wrap@.len() == d,
                del@.len() == d,
                all_positive(component_range@),
                product(component_range@) <= order,
                product(component_range@) <= isize::MAX,
                forall|k: int|
                    0 <= k < d ==> {
                        &&& #[trigger] component_range@[k] <= isize::MAX
                        &&& component_range@[k] + del@[k] <= isize::MAX
                        &&& component_range@[k] - del@[k] <= isize::MAX
                    },
            decreases n - vertex_idx,
        {
            let ghost before = *graph;
            let ghost cs = current_state@;
            match sweep_vertex(
                graph,
                vertex_idx,
                &mut current_state,
                &mut post_state,
                del,
                component_range,
                wrap,
                directed,
                piece,
            ) {
                Ok(()) => {},
                Err(e) => {
                    proof {
                        lemma_arcs_grown_trans(g0, before, *graph, law);
                    }
                    return Err(FillArcsError::Moves(e));
                },
            }
            proof {
                lemma_arcs_grown_trans(g0, before, *graph, law);
                lemma_counter_carry_in_range(cs, component_range@, d as nat);
                lemma_counter_carry_ints(cs, component_range@, d as nat);
                let a = (|i: int| motions_tips(component_range@, wrap@, piece, directed, done, order, i));
                let b = (|i: int|
                    sweep_tips(component_range@, wrap@, piece, directed, del@, vertex_idx as nat, i));
                let c = (|i: int|
                    vertex_tips(component_range@, wrap@, piece, directed, del@, vertex_idx as nat, i));
                assert forall|i: int| 0 <= i < order implies #[trigger] (a(i) + sweep_tips(
                    component_range@,
                    wrap@,
                    piece,
                    directed,
                    del@,
                    (vertex_idx + 1) as nat,
                    i,
                )) == (a(i) + b(i)) + c(i) by {
                    assert((a(i) + b(i)) + c(i) =~= a(i) + (b(i) + c(i)));
                }
                lemma_arcs_extended_trans(
                    g0,
                    before,
                    *graph,
                    (|i: int| a(i) + b(i)),
                    c,
                    (|i: int|
                        a(i) + sweep_tips(
                            component_range@,
                            wrap@,
                            piece,
                            directed,
                            del@,
                            (vertex_idx + 1) as nat,
                            i,
                        )),
                );
            }
            vertex_idx = vertex_idx + 1;
        }
        proof {
            let next_done = done.push(del@);
            assert(next_done.drop_last() =~= done);
            assert(next_done.last() == del@);
            lemma_arcs_extended_congruent(
                *graph,
                g0,
                (|i: int|
                    motions_tips(component_range@, wrap@, piece, directed, done, order, i)
                        + sweep_tips(component_range@, wrap@, piece, directed, del@, order, i)),
                (|i: int| motions_tips(component_range@, wrap@, piece, directed, next_done, order, i)),
            );
            lemma_lex_rank_bounds(sign_bits(del@), 2);
            assert(fuel >= 1);
            assert(signs_from(del@, fuel) == seq![del@] + match sign_step(del@, d as nat) {
                None => Seq::empty(),
                Some(nx) => signs_from(nx, (fuel - 1) as nat),
            });
            done = next_done;
        }
        let ghost dc = del@;
        let mut i: usize = d;
        let mut last: usize = 0;
        let mut stopped: bool = false;
        while i > 0
            invariant_except_break
                i <= d,
                !stopped,
                del@.len() == d,
                sign_step(dc, d as nat) == sign_step(del@, i as nat),
                forall|j: int| 0 <= j < i ==> #[trigger] del@[j] == dc[j],
                forall|j: int| i <= j < d ==> #[trigger] del@[j] == del0[j],
                i == d ==> last == 0,
                i < d ==> last == sig@[i as int],
            invariant
                d == dc.len(),
                d == del0.len(),
                d + 1 == sig@.len(),
                forall|j: int| 0 <= j <= d ==> #[trigger] sig@[j] as int == sum_squares(del0, j as nat),
                forall|j: int| 0 <= j < d ==> 0 <= #[trigger] del0[j] < isize::MAX,
                forall|j: int| 0 <= j < d ==> #[trigger] dc[j] == del0[j] || dc[j] == -del0[j],
            ensures
                del@.len() == d,
                !stopped ==> sign_step(dc, d as nat) is None,
                stopped && last != 0 ==> sign_step(dc, d as nat) == Some(del@),
                stopped && last == 0 ==> sign_step(dc, d as nat) is None,
                !stopped ==> {
                    &&& i == 0
                    &&& forall|j: int| 0 <= j < d ==> #[trigger] del@[j] == del0[j]
                    &&& d == 0 ==> last == 0
                    &&& d > 0 ==> last == sig@[0]
                },
                stopped ==> {
                    &&& i < d
                    &&& dc[i as int] > 0
                    &&& last == sig@[i as int]
                    &&& forall|j: int| 0 <= j < i ==> #[trigger] del@[j] == dc[j]
                    &&& forall|j: int| i < j < d ==> #[trigger] del@[j] == del0[j]
                    &&& sig@[i as int] != 0 ==> del@[i as int] == -dc[i as int]
                    &&& sig@[i as int] == 0 ==> del@[i as int] == dc[i as int]
                },
            decreases i,
        {
            i = i - 1;
            let x = del[i];
            proof {
                assert forall|j: int| 0 <= j < i implies #[trigger] del@[j] == del0[j] || del@[j]
                    == -del0[j] by {
                    assert(del@[j] == dc[j]);
                }
                lemma_sum_squares_signs(del@, del0, i as nat);
            }
            let ghost cur = del@;
            if x <= 0 {
                del.set(i, -x);
                last = sig[i];
            } else {
                proof {
                    assert(sign_step(cur, (i + 1) as nat) == if sum_squares(cur, i as nat) != 0 {
                        Some(cur.update(i as int, (-x) as isize))
                    } else {
                        None
                    });
                    assert(sum_squares(cur, i as nat) == sig@[i as int] as int);
                }
                if sig[i] != 0 {
                    del.set(i, -x);
                }
                last = sig[i];
                stopped = true;
                break;
            }
        }
        proof {
            assert(all_signs == done + match sign_step(dc, d as nat) {
                None => Seq::empty(),
                Some(nx) => signs_from(nx, (fuel - 1) as nat),
            }) by {
                assert(done.drop_last() + seq![dc] =~= done);
                let rest = match sign_step(dc, d as nat) {
                    None => Seq::<Seq<isize>>::empty(),
                    Some(nx) => signs_from(nx, (fuel - 1) as nat),
                };
                assert(done.drop_last() + (seq![dc] + rest) =~= done + rest);
            }
        }
        if last == 0 {
            proof {
                assert(all_signs =~= done);
                if stopped {
                    lemma_sum_squares_signs(dc, del0, i as nat);
                    lemma_sum_squares_zero(dc, i as nat);
                }
                assert(del@ =~= del0);
            }
            return Ok(());
        }
        proof {
            assert(stopped);
            assert forall|j: int| 0 <= j < d implies 0 <= #[trigger] sign_bits(dc)[j] < 2 by {}
            lemma_lex_rank_increment(sign_bits(dc), sign_bits(del@), 2, i as int);
            lemma_lex_rank_bounds(sign_bits(del@), 2);
            fuel = (fuel - 1) as nat;
        }
    }
}

} // verus!
