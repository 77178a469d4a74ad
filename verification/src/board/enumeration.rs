//! What the enumeration of motions visits: every motion of a board, once.
use vstd::prelude::*;

use crate::board::{
    advance_from, board_magnitudes, board_motions, lemma_lex_rank_bounds,
    lemma_lex_rank_increment, lemma_sum_squares_monotone, lemma_sum_squares_prefix,
    lemma_sum_squares_signs, lemma_sum_squares_zero, lex_rank, motion_digits, motions_after,
    power, sign_bits, sign_step, signs_from, sum_squares, with_signs,
};

verus! {

/// `a` and `b` agree before index `j` and `a` is smaller at `j`.
pub open spec fn lex_at(a: Seq<isize>, b: Seq<isize>, j: int) -> bool {
    &&& 0 <= j < a.len()
    &&& a[j] < b[j]
    &&& forall|i: int| 0 <= i < j ==> #[trigger] a[i] == b[i]
}

/// `a` comes before `b` in lexicographic order.
pub open spec fn lex_before(a: Seq<isize>, b: Seq<isize>) -> bool {
    &&& a.len() == b.len()
    &&& exists|j: int| #[trigger] lex_at(a, b, j)
}

/// A nonnegative motion whose squares sum to at most `p`.
pub open spec fn feasible(del: Seq<isize>, p: int) -> bool {
    &&& forall|j: int| 0 <= j < del.len() ==> 0 <= #[trigger] del[j]
    &&& sum_squares(del, del.len()) <= p
}

/// The component `j` of `del` cannot grow by one within `p`.
pub open spec fn full_at(del: Seq<isize>, p: int, j: int) -> bool {
    sum_squares(del, j as nat) + (del[j] + 1) * (del[j] + 1) > p
}

/// Two different motions of the same length are ordered one way or the other.
pub proof fn lemma_lex_total(a: Seq<isize>, b: Seq<isize>, k: nat)
    requires
        a.len() == b.len(),
        k <= a.len(),
        forall|i: int| 0 <= i < k ==> #[trigger] a[i] == b[i],
        a != b,
    ensures
        lex_before(a, b) || lex_before(b, a),
    decreases a.len() - k,
{
    if k == a.len() {
        assert(a =~= b);
    } else if a[k as int] < b[k as int] {
        assert(lex_at(a, b, k as int));
    } else if b[k as int] < a[k as int] {
        assert(lex_at(b, a, k as int));
    } else {
        lemma_lex_total(a, b, k + 1);
    }
}

/// A feasible motion that agrees with `del` before a full component `j` and
/// is larger there is not feasible after all.
pub proof fn lemma_full_blocks(del: Seq<isize>, delta: Seq<isize>, p: int, j: int)
    requires
        delta.len() == del.len(),
        0 <= j < del.len(),
        0 <= del[j],
        full_at(del, p, j),
        forall|i: int| 0 <= i < j ==> #[trigger] delta[i] == del[i],
        delta[j] > del[j],
    ensures
        sum_squares(delta, delta.len()) > p,
{
    lemma_sum_squares_prefix(del, delta, j as nat);
    lemma_sum_squares_monotone(delta, (j + 1) as nat, delta.len());
    let x = delta[j] as int;
    let y = del[j] as int;
    assert(x * x >= (y + 1) * (y + 1)) by (nonlinear_arith)
        requires
            x >= y + 1,
            y >= 0,
    ;
}

/// What the search for the next motion finds, from component `k - 1` down,
/// where `cur` is `del` with its components from `k` on set to zero and those
/// components of `del` full: nothing, where no feasible motion follows `del`;
/// otherwise `del` with component `i` grown by one and those after it zero,
/// where component `i` can grow and those after it are full.
pub proof fn lemma_advance(del: Seq<isize>, cur: Seq<isize>, p: int, k: nat)
    requires
        feasible(del, p),
        p < isize::MAX,
        cur.len() == del.len(),
        k <= del.len(),
        forall|j: int| 0 <= j < k ==> #[trigger] cur[j] == del[j],
        forall|j: int| k <= j < del.len() ==> #[trigger] cur[j] == 0,
        forall|j: int| k <= j < del.len() ==> #[trigger] full_at(del, p, j),
    ensures
        advance_from(cur, p, k) is None ==> forall|delta: Seq<isize>|
            feasible(delta, p) && delta.len() == del.len() ==> !#[trigger] lex_before(del, delta),
        advance_from(cur, p, k) matches Some(n) ==> exists|i: int|
            {
                &&& 0 <= i < k
                &&& n.len() == del.len()
                &&& forall|j: int| 0 <= j < i ==> #[trigger] n[j] == del[j]
                &&& n[i] == del[i] + 1
                &&& forall|j: int| i < j < del.len() ==> #[trigger] n[j] == 0
                &&& !#[trigger] full_at(del, p, i)
                &&& forall|j: int| i < j < del.len() ==> #[trigger] full_at(del, p, j)
            },
    decreases k,
{
    if k == 0 {
        assert forall|delta: Seq<isize>|
            feasible(delta, p) && delta.len() == del.len() implies !#[trigger] lex_before(
            del,
            delta,
        ) by {
            if lex_before(del, delta) {
                let j = choose|j: int| #[trigger] lex_at(del, delta, j);
                assert(full_at(del, p, j));
                lemma_full_blocks(del, delta, p, j);
            }
        }
    } else {
        let j = (k - 1) as int;
        lemma_sum_squares_prefix(cur, del, j as nat);
        if full_at(del, p, j) {
            lemma_advance(del, cur.update(j, 0), p, j as nat);
        } else {
            let n = cur.update(j, (cur[j] + 1) as isize);
            assert(del[j] < isize::MAX) by {
                lemma_sum_squares_monotone(del, j as nat, del.len());
                lemma_sum_squares_monotone(del, 0, j as nat);
                let x = del[j] as int;
                assert(x <= x * x) by (nonlinear_arith)
                    requires
                        x >= 0,
                ;
                assert(x + 1 <= (x + 1) * (x + 1)) by (nonlinear_arith)
                    requires
                        x >= 0,
                ;
            }
            assert(advance_from(cur, p, k) == Some(n));
            assert({
                &&& 0 <= j < k
                &&& n.len() == del.len()
                &&& forall|jj: int| 0 <= jj < j ==> #[trigger] n[jj] == del[jj]
                &&& n[j] == del[j] + 1
                &&& forall|jj: int| j < jj < del.len() ==> #[trigger] n[jj] == 0
                &&& !#[trigger] full_at(del, p, j)
                &&& forall|jj: int| j < jj < del.len() ==> #[trigger] full_at(del, p, jj)
            });
        }
    }
}

/// The next motion after a feasible one is feasible, follows it, and no
/// feasible motion lies between them.
pub proof fn lemma_next_motion(del: Seq<isize>, p: int, n: Seq<isize>, i: int)
    requires
        feasible(del, p),
        0 <= i < del.len(),
        n.len() == del.len(),
        forall|j: int| 0 <= j < i ==> #[trigger] n[j] == del[j],
        n[i] == del[i] + 1,
        forall|j: int| i < j < del.len() ==> #[trigger] n[j] == 0,
        !full_at(del, p, i),
        forall|j: int| i < j < del.len() ==> #[trigger] full_at(del, p, j),
    ensures
        feasible(n, p),
        lex_before(del, n),
        forall|delta: Seq<isize>|
            feasible(delta, p) && lex_before(del, delta) ==> !lex_before(delta, n),
{
    let d = del.len();
    lemma_sum_squares_prefix(n, del, i as nat);
    assert(sum_squares(n, d) == sum_squares(n, (i + 1) as nat)) by {
        lemma_zero_tail(n, (i + 1) as nat, d);
    }
    assert(lex_at(del, n, i));
    assert forall|delta: Seq<isize>|
        feasible(delta, p) && lex_before(del, delta) implies !lex_before(delta, n) by {
        let j0 = choose|j: int| #[trigger] lex_at(del, delta, j);
        if j0 > i {
            assert(full_at(del, p, j0));
            lemma_full_blocks(del, delta, p, j0);
        } else if lex_before(delta, n) {
            let j1 = choose|j: int| #[trigger] lex_at(delta, n, j);
            if j0 < i {
                if j1 < j0 {
                    assert(delta[j1] == del[j1]);
                } else if j1 > j0 {
                    assert(delta[j0] == n[j0]);
                }
            } else {
                if j1 > i {
                    assert(delta[j1] >= 0);
                }
            }
        }
    }
}

/// Zero components add nothing to a partial sum of squares.
pub proof fn lemma_zero_tail(a: Seq<isize>, i: nat, k: nat)
    requires
        i <= k <= a.len(),
        forall|j: int| i <= j < k ==> #[trigger] a[j] == 0,
    ensures
        sum_squares(a, k) == sum_squares(a, i),
    decreases k,
{
    if k > i {
        lemma_zero_tail(a, i, (k - 1) as nat);
    }
}

/// A feasible motion has components below `p + 1`.
pub proof fn lemma_feasible_digits(del: Seq<isize>, p: int)
    requires
        feasible(del, p),
    ensures
        forall|j: int| 0 <= j < del.len() ==> 0 <= #[trigger] motion_digits(del)[j] < p + 1,
{
    assert forall|j: int| 0 <= j < del.len() implies 0 <= #[trigger] motion_digits(del)[j] < p
        + 1 by {
        lemma_sum_squares_monotone(del, j as nat, del.len());
        lemma_sum_squares_monotone(del, 0, j as nat);
        let x = del[j] as int;
        assert(x <= x * x) by (nonlinear_arith)
            requires
                x >= 0,
        ;
    }
}

/// Every feasible motion after `del` whose squares sum to exactly `p` is one
/// of the motions after it.
pub proof fn lemma_motions_after_complete(del: Seq<isize>, p: int, fuel: nat, delta: Seq<isize>)
    requires
        0 <= p < isize::MAX,
        feasible(del, p),
        fuel as int >= power(p + 1, del.len()) - lex_rank(motion_digits(del), p + 1),
        feasible(delta, p),
        delta.len() == del.len(),
        sum_squares(delta, delta.len()) == p,
        lex_before(del, delta),
    ensures
        motions_after(del, p, fuel).contains(delta),
    decreases fuel,
{
    let b = p + 1;
    let d = del.len();
    lemma_feasible_digits(del, p);
    lemma_lex_rank_bounds(motion_digits(del), b);
    assert(fuel >= 1);
    lemma_advance(del, del, p, d);
    match advance_from(del, p, d) {
        None => {
            assert(lex_before(del, delta));
        },
        Some(n) => {
            let i = choose|i: int|
                {
                    &&& 0 <= i < d
                    &&& n.len() == del.len()
                    &&& forall|j: int| 0 <= j < i ==> #[trigger] n[j] == del[j]
                    &&& n[i] == del[i] + 1
                    &&& forall|j: int| i < j < del.len() ==> #[trigger] n[j] == 0
                    &&& !#[trigger] full_at(del, p, i)
                    &&& forall|j: int| i < j < del.len() ==> #[trigger] full_at(del, p, j)
                };
            lemma_next_motion(del, p, n, i);
            let head = if sum_squares(n, n.len()) == p {
                seq![n]
            } else {
                Seq::<Seq<isize>>::empty()
            };
            let rest = motions_after(n, p, (fuel - 1) as nat);
            assert(motions_after(del, p, fuel) == head + rest);
            if delta == n {
                assert((head + rest)[0] == delta);
            } else {
                lemma_lex_total(n, delta, 0);
                if lex_before(n, delta) {
                    lemma_feasible_digits(n, p);
                    lemma_lex_rank_increment(motion_digits(del), motion_digits(n), b, i);
                    lemma_motions_after_complete(n, p, (fuel - 1) as nat, delta);
                    let k = choose|k: int| 0 <= k < rest.len() && rest[k] == delta;
                    assert((head + rest)[head.len() + k] == delta);
                }
            }
        },
    }
}

/// Every nonnegative motion of `d` components whose squares sum to `p` is
/// one of the motions the board visits.
pub proof fn lemma_board_magnitudes_complete(p: int, d: nat, delta: Seq<isize>)
    requires
        1 <= p < isize::MAX,
        delta.len() == d,
        forall|j: int| 0 <= j < d ==> 0 <= #[trigger] delta[j],
        sum_squares(delta, d) == p,
    ensures
        board_magnitudes(p, d).contains(delta),
{
    let z = Seq::new(d, |k: int| 0isize);
    assert(sum_squares(z, d) == 0) by {
        lemma_zero_tail(z, 0, d);
    }
    assert(feasible(z, p));
    assert(feasible(delta, p));
    if delta == z {
        assert(false);
    }
    lemma_lex_total(z, delta, 0);
    if lex_before(delta, z) {
        let j = choose|j: int| #[trigger] lex_at(delta, z, j);
        assert(delta[j] >= 0);
    }
    lemma_feasible_digits(z, p);
    lemma_lex_rank_bounds(motion_digits(z), p + 1);
    lemma_motions_after_complete(z, p, power(p + 1, d) as nat, delta);
}

/// `sigma` is `m` with the signs of some of its components changed.
pub open spec fn signing_of(sigma: Seq<isize>, m: Seq<isize>) -> bool {
    &&& sigma.len() == m.len()
    &&& forall|j: int| 0 <= j < m.len() ==> #[trigger] sigma[j] == m[j] || sigma[j] == -m[j]
}

/// The first nonzero component of `sigma`, if there is one, is positive.
pub open spec fn leads_positive(sigma: Seq<isize>) -> bool {
    forall|j: int|
        0 <= j < sigma.len() && sum_squares(sigma, j as nat) == 0 ==> 0 <= #[trigger] sigma[j]
}

/// One for each negative component of `sigma`, zero for the others.
pub open spec fn neg_bits(sigma: Seq<isize>) -> Seq<isize> {
    sigma.map_values(|x: isize| if x < 0 { 1isize } else { 0isize })
}

/// A nonnegative motion whose components can all change sign.
pub open spec fn signable(m: Seq<isize>) -> bool {
    forall|j: int| 0 <= j < m.len() ==> 0 <= #[trigger] m[j] < isize::MAX
}

/// Two signings of the same motion with the same negative components are
/// the same.
pub proof fn lemma_signing_bits(a: Seq<isize>, b: Seq<isize>, m: Seq<isize>)
    requires
        signable(m),
        signing_of(a, m),
        signing_of(b, m),
        neg_bits(a) == neg_bits(b),
    ensures
        a == b,
{
    assert forall|j: int| 0 <= j < a.len() implies a[j] == b[j] by {
        assert(neg_bits(a)[j] == neg_bits(b)[j]);
        assert(neg_bits(a)[j] == if a[j] < 0 { 1isize } else { 0isize });
        assert(neg_bits(b)[j] == if b[j] < 0 { 1isize } else { 0isize });
        assert(0 <= m[j]);
        assert(a[j] == m[j] || a[j] == -m[j]);
        assert(b[j] == m[j] || b[j] == -m[j]);
    }
    assert(a =~= b);
}

/// What the next choice of signs is, looked for from component `k - 1` down,
/// where `cur` is `sigma` with its components from `k` on made positive, and
/// those components of `sigma` not positive: nothing, where no signing of
/// `m` whose first nonzero component is positive follows `sigma`; otherwise
/// `sigma` with component `i` made negative and those after it positive,
/// where component `i` is positive but not the first nonzero one, and those
/// after it are not positive.
#[verifier::spinoff_prover]
#[verifier::rlimit(40)]
pub proof fn lemma_sign_advance(sigma: Seq<isize>, cur: Seq<isize>, m: Seq<isize>, k: nat)
    requires
        signable(m),
        signing_of(sigma, m),
        leads_positive(sigma),
        cur.len() == m.len(),
        k <= m.len(),
        forall|j: int| 0 <= j < k ==> #[trigger] cur[j] == sigma[j],
        forall|j: int| k <= j < m.len() ==> #[trigger] cur[j] == m[j],
        forall|j: int| k <= j < m.len() ==> #[trigger] sigma[j] <= 0,
    ensures
        sign_step(cur, k) is None ==> forall|tau: Seq<isize>|
            signing_of(tau, m) && leads_positive(tau) ==> !#[trigger] lex_before(
                neg_bits(sigma),
                neg_bits(tau),
            ),
        sign_step(cur, k) matches Some(n) ==> exists|i: int|
            {
                &&& 0 <= i < k
                &&& n.len() == m.len()
                &&& forall|j: int| 0 <= j < i ==> #[trigger] n[j] == sigma[j]
                &&& #[trigger] sigma[i] > 0
                &&& sum_squares(sigma, i as nat) != 0
                &&& n[i] == -sigma[i]
                &&& forall|j: int| i < j < m.len() ==> #[trigger] n[j] == m[j]
                &&& forall|j: int| i < j < m.len() ==> #[trigger] sigma[j] <= 0
            },
    decreases k,
{
    if k == 0 {
        lemma_no_signing_after(sigma, m, 0);
    } else {
        let j = (k - 1) as int;
        if cur[j] <= 0 {
            let next = cur.update(j, (-cur[j]) as isize);
            assert(sigma[j] <= 0 && 0 <= m[j] < isize::MAX);
            assert(next[j] == m[j]);
            assert forall|l: int| j <= l < m.len() implies #[trigger] next[l] == m[l] by {}
            assert forall|l: int| 0 <= l < j implies #[trigger] next[l] == sigma[l] by {}
            lemma_sign_advance(sigma, next, m, j as nat);
        } else {
            lemma_sum_squares_prefix(cur, sigma, j as nat);
            if sum_squares(sigma, j as nat) != 0 {
                let n = cur.update(j, (-cur[j]) as isize);
                assert({
                    &&& 0 <= j < k
                    &&& n.len() == m.len()
                    &&& forall|jj: int| 0 <= jj < j ==> #[trigger] n[jj] == sigma[jj]
                    &&& #[trigger] sigma[j] > 0
                    &&& sum_squares(sigma, j as nat) != 0
                    &&& n[j] == -sigma[j]
                    &&& forall|jj: int| j < jj < m.len() ==> #[trigger] n[jj] == m[jj]
                    &&& forall|jj: int| j < jj < m.len() ==> #[trigger] sigma[jj] <= 0
                });
            } else {
                lemma_sum_squares_zero(sigma, j as nat);
                lemma_no_signing_after(sigma, m, j);
            }
        }
    }
}

/// No signing of `m` whose first nonzero component is positive follows
/// `sigma` where the components of `sigma` from `j` on are not positive,
/// except a first nonzero one at `j`.
pub proof fn lemma_no_signing_after(sigma: Seq<isize>, m: Seq<isize>, j: int)
    requires
        signable(m),
        signing_of(sigma, m),
        0 <= j <= m.len(),
        forall|l: int| 0 <= l < j ==> #[trigger] sigma[l] == 0,
        forall|l: int| j < l < m.len() ==> #[trigger] sigma[l] <= 0,
        j == m.len() || forall|l: int| 0 <= l < m.len() ==> #[trigger] sigma[l] <= 0 || l == j,
    ensures
        forall|tau: Seq<isize>|
            signing_of(tau, m) && leads_positive(tau) ==> !#[trigger] lex_before(
                neg_bits(sigma),
                neg_bits(tau),
            ),
{
    assert forall|tau: Seq<isize>| signing_of(tau, m) && leads_positive(tau) implies !#[trigger] lex_before(
        neg_bits(sigma),
        neg_bits(tau),
    ) by {
        if lex_before(neg_bits(sigma), neg_bits(tau)) {
            let j0 = choose|l: int| #[trigger] lex_at(neg_bits(sigma), neg_bits(tau), l);
            assert(neg_bits(sigma)[j0] < neg_bits(tau)[j0]);
            assert(tau[j0] < 0);
            assert(sigma[j0] > 0);
            assert forall|l: int| 0 <= l < j0 implies #[trigger] tau[l] == sigma[l] by {
                assert(neg_bits(sigma)[l] == neg_bits(tau)[l]);
            }
            lemma_sum_squares_prefix(tau, sigma, j0 as nat);
            assert(sum_squares(sigma, j0 as nat) == 0) by {
                lemma_zero_tail(sigma, 0, j0 as nat);
            }
        }
    }
}

/// The next choice of signs is a signing of `m` whose first nonzero
/// component is positive, follows `sigma`, and no such signing lies between
/// them.
pub proof fn lemma_next_signing(sigma: Seq<isize>, m: Seq<isize>, n: Seq<isize>, i: int)
    requires
        signable(m),
        signing_of(sigma, m),
        leads_positive(sigma),
        0 <= i < m.len(),
        n.len() == m.len(),
        forall|j: int| 0 <= j < i ==> #[trigger] n[j] == sigma[j],
        sigma[i] > 0,
        sum_squares(sigma, i as nat) != 0,
        n[i] == -sigma[i],
        forall|j: int| i < j < m.len() ==> #[trigger] n[j] == m[j],
        forall|j: int| i < j < m.len() ==> #[trigger] sigma[j] <= 0,
    ensures
        signing_of(n, m),
        leads_positive(n),
        lex_before(neg_bits(sigma), neg_bits(n)),
        forall|tau: Seq<isize>|
            signing_of(tau, m) && leads_positive(tau) && lex_before(neg_bits(sigma), neg_bits(tau))
                ==> !lex_before(neg_bits(tau), neg_bits(n)),
{
    let d = m.len();
    lemma_sum_squares_prefix(n, sigma, i as nat);
    assert forall|j: int| 0 <= j < n.len() && sum_squares(n, j as nat) == 0 implies 0
        <= #[trigger] n[j] by {
        if j <= i {
            lemma_sum_squares_prefix(n, sigma, j as nat);
            lemma_sum_squares_monotone(sigma, j as nat, i as nat);
        } else {
            lemma_sum_squares_monotone(n, i as nat, j as nat);
        }
    }
    assert(lex_at(neg_bits(sigma), neg_bits(n), i));
    assert forall|tau: Seq<isize>|
        signing_of(tau, m) && leads_positive(tau) && lex_before(neg_bits(sigma), neg_bits(tau))
            implies !lex_before(neg_bits(tau), neg_bits(n)) by {
        let j0 = choose|l: int| #[trigger] lex_at(neg_bits(sigma), neg_bits(tau), l);
        assert(neg_bits(sigma)[j0] < neg_bits(tau)[j0]);
        if j0 > i {
            assert(sigma[j0] <= 0);
        } else if lex_before(neg_bits(tau), neg_bits(n)) {
            let j1 = choose|l: int| #[trigger] lex_at(neg_bits(tau), neg_bits(n), l);
            assert(neg_bits(tau)[j1] < neg_bits(n)[j1]);
            if j0 < i {
                if j1 < j0 {
                    assert(neg_bits(sigma)[j1] == neg_bits(tau)[j1]);
                } else if j1 > j0 {
                    assert(neg_bits(tau)[j0] == neg_bits(n)[j0]);
                }
            } else {
                if j1 < i {
                    assert(neg_bits(sigma)[j1] == neg_bits(tau)[j1]);
                } else if j1 > i {
                    assert(n[j1] == m[j1]);
                }
            }
        }
    }
}

/// A signing of `m` has the digits of its signs below two.
pub proof fn lemma_sign_bits_digits(sigma: Seq<isize>)
    ensures
        forall|j: int| 0 <= j < sigma.len() ==> 0 <= #[trigger] sign_bits(sigma)[j] < 2,
{
}

/// Every signing of `m` whose first nonzero component is positive and that
/// follows `sigma` is among `sigma` and the signings after it.
pub proof fn lemma_signs_from_complete(
    sigma: Seq<isize>,
    m: Seq<isize>,
    fuel: nat,
    tau: Seq<isize>,
)
    requires
        signable(m),
        signing_of(sigma, m),
        leads_positive(sigma),
        fuel as int >= power(2, m.len()) - lex_rank(sign_bits(sigma), 2),
        signing_of(tau, m),
        leads_positive(tau),
        tau == sigma || lex_before(neg_bits(sigma), neg_bits(tau)),
    ensures
        signs_from(sigma, fuel).contains(tau),
    decreases fuel,
{
    let d = m.len();
    lemma_sign_bits_digits(sigma);
    lemma_lex_rank_bounds(sign_bits(sigma), 2);
    assert(fuel >= 1);
    let rest = match sign_step(sigma, d) {
        None => Seq::<Seq<isize>>::empty(),
        Some(n) => signs_from(n, (fuel - 1) as nat),
    };
    assert(signs_from(sigma, fuel) == seq![sigma] + rest);
    if tau == sigma {
        assert((seq![sigma] + rest)[0] == tau);
    } else {
        lemma_sign_advance(sigma, sigma, m, d);
        match sign_step(sigma, d) {
            None => {},
            Some(n) => {
                let i = choose|i: int|
                    {
                        &&& 0 <= i < d
                        &&& n.len() == m.len()
                        &&& forall|j: int| 0 <= j < i ==> #[trigger] n[j] == sigma[j]
                        &&& #[trigger] sigma[i] > 0
                        &&& sum_squares(sigma, i as nat) != 0
                        &&& n[i] == -sigma[i]
                        &&& forall|j: int| i < j < m.len() ==> #[trigger] n[j] == m[j]
                        &&& forall|j: int| i < j < m.len() ==> #[trigger] sigma[j] <= 0
                    };
                lemma_next_signing(sigma, m, n, i);
                lemma_sign_bits_digits(n);
                lemma_lex_rank_increment(sign_bits(sigma), sign_bits(n), 2, i);
                if tau != n {
                    if neg_bits(tau) == neg_bits(n) {
                        lemma_signing_bits(tau, n, m);
                    }
                    lemma_lex_total(neg_bits(n), neg_bits(tau), 0);
                }
                lemma_signs_from_complete(n, m, (fuel - 1) as nat, tau);
                let k = choose|k: int| 0 <= k < rest.len() && rest[k] == tau;
                assert((seq![sigma] + rest)[1 + k] == tau);
            },
        }
    }
}

/// Every signing of `m` whose first nonzero component is positive is among
/// the signings that the sign sweep visits from `m`.
pub proof fn lemma_signs_complete(m: Seq<isize>, tau: Seq<isize>)
    requires
        signable(m),
        signing_of(tau, m),
        leads_positive(tau),
    ensures
        signs_from(m, power(2, m.len()) as nat).contains(tau),
{
    let d = m.len();
    assert(signing_of(m, m));
    assert(leads_positive(m));
    lemma_sign_bits_digits(m);
    lemma_lex_rank_bounds(sign_bits(m), 2);
    if tau != m {
        if neg_bits(tau) == neg_bits(m) {
            lemma_signing_bits(tau, m, m);
        }
        lemma_lex_total(neg_bits(m), neg_bits(tau), 0);
        if lex_before(neg_bits(tau), neg_bits(m)) {
            let j = choose|l: int| #[trigger] lex_at(neg_bits(tau), neg_bits(m), l);
            assert(neg_bits(tau)[j] < neg_bits(m)[j]);
        }
    }
    lemma_signs_from_complete(m, m, power(2, d) as nat, tau);
}

/// The signed motions of a list of motions include every signing, with a
/// positive first nonzero component, of each of them.
pub proof fn lemma_with_signs_contains(ms: Seq<Seq<isize>>, k: int, tau: Seq<isize>)
    requires
        0 <= k < ms.len(),
        signs_from(ms[k], power(2, ms[k].len()) as nat).contains(tau),
    ensures
        with_signs(ms).contains(tau),
    decreases ms.len(),
{
    let a = with_signs(ms.drop_last());
    let b = signs_from(ms.last(), power(2, ms.last().len()) as nat);
    assert(with_signs(ms) == a + b);
    if k == ms.len() - 1 {
        let x = choose|x: int| 0 <= x < b.len() && b[x] == tau;
        assert((a + b)[a.len() + x] == tau);
    } else {
        assert(ms.drop_last()[k] == ms[k]);
        lemma_with_signs_contains(ms.drop_last(), k, tau);
        let x = choose|x: int| 0 <= x < a.len() && a[x] == tau;
        assert((a + b)[x] == tau);
    }
}

/// Every motion of `d` components whose squares sum to `p` and whose first
/// nonzero component is positive is one of the signed motions a board visits.
pub proof fn lemma_board_motions_complete(p: int, d: nat, tau: Seq<isize>)
    requires
        1 <= p < isize::MAX,
        tau.len() == d,
        sum_squares(tau, d) == p,
        leads_positive(tau),
        forall|j: int| 0 <= j < d ==> #[trigger] tau[j] > isize::MIN,
    ensures
        board_motions(p, d).contains(tau),
{
    let m = tau.map_values(|x: isize| if x < 0 { (-x) as isize } else { x });
    assert(signing_of(tau, m));
    lemma_sum_squares_signs(m, tau, d);
    assert forall|j: int| 0 <= j < d implies 0 <= #[trigger] m[j] < isize::MAX by {
        lemma_sum_squares_monotone(m, j as nat, d);
        lemma_sum_squares_monotone(m, 0, j as nat);
        let x = m[j] as int;
        assert(x <= x * x) by (nonlinear_arith)
            requires
                x >= 0,
        ;
    }
    lemma_board_magnitudes_complete(p, d, m);
    let k = choose|k: int| 0 <= k < board_magnitudes(p, d).len() && board_magnitudes(p, d)[k] == m;
    lemma_signs_complete(m, tau);
    lemma_with_signs_contains(board_magnitudes(p, d), k, tau);
}

/// The motions after a feasible one are nonnegative motions of its length
/// whose squares sum to exactly `p`.
pub proof fn lemma_motions_after_sound(del: Seq<isize>, p: int, fuel: nat, k: int)
    requires
        0 <= p < isize::MAX,
        feasible(del, p),
        0 <= k < motions_after(del, p, fuel).len(),
    ensures
        motions_after(del, p, fuel)[k].len() == del.len(),
        feasible(motions_after(del, p, fuel)[k], p),
        sum_squares(motions_after(del, p, fuel)[k], del.len()) == p,
    decreases fuel,
{
    let d = del.len();
    lemma_advance(del, del, p, d);
    match advance_from(del, p, d) {
        None => {},
        Some(n) => {
            let i = choose|i: int|
                {
                    &&& 0 <= i < d
                    &&& n.len() == del.len()
                    &&& forall|j: int| 0 <= j < i ==> #[trigger] n[j] == del[j]
                    &&& n[i] == del[i] + 1
                    &&& forall|j: int| i < j < del.len() ==> #[trigger] n[j] == 0
                    &&& !#[trigger] full_at(del, p, i)
                    &&& forall|j: int| i < j < del.len() ==> #[trigger] full_at(del, p, j)
                };
            lemma_next_motion(del, p, n, i);
            let head = if sum_squares(n, n.len()) == p {
                seq![n]
            } else {
                Seq::<Seq<isize>>::empty()
            };
            let rest = motions_after(n, p, (fuel - 1) as nat);
            assert(motions_after(del, p, fuel) == head + rest);
            if k >= head.len() {
                lemma_motions_after_sound(n, p, (fuel - 1) as nat, k - head.len());
            }
        },
    }
}

/// The signings after a signing of `m` whose first nonzero component is
/// positive are such signings too.
pub proof fn lemma_signs_from_sound(sigma: Seq<isize>, m: Seq<isize>, fuel: nat, k: int)
    requires
        signable(m),
        signing_of(sigma, m),
        leads_positive(sigma),
        0 <= k < signs_from(sigma, fuel).len(),
    ensures
        signing_of(signs_from(sigma, fuel)[k], m),
        leads_positive(signs_from(sigma, fuel)[k]),
    decreases fuel,
{
    let d = m.len();
    let rest = match sign_step(sigma, d) {
        None => Seq::<Seq<isize>>::empty(),
        Some(n) => signs_from(n, (fuel - 1) as nat),
    };
    assert(signs_from(sigma, fuel) == seq![sigma] + rest);
    if k > 0 {
        lemma_sign_advance(sigma, sigma, m, d);
        match sign_step(sigma, d) {
            None => {},
            Some(n) => {
                let i = choose|i: int|
                    {
                        &&& 0 <= i < d
                        &&& n.len() == m.len()
                        &&& forall|j: int| 0 <= j < i ==> #[trigger] n[j] == sigma[j]
                        &&& #[trigger] sigma[i] > 0
                        &&& sum_squares(sigma, i as nat) != 0
                        &&& n[i] == -sigma[i]
                        &&& forall|j: int| i < j < m.len() ==> #[trigger] n[j] == m[j]
                        &&& forall|j: int| i < j < m.len() ==> #[trigger] sigma[j] <= 0
                    };
                lemma_next_signing(sigma, m, n, i);
                lemma_signs_from_sound(n, m, (fuel - 1) as nat, k - 1);
            },
        }
    }
}

/// Each signed motion of a list comes from the signings of one of its
/// motions.
pub proof fn lemma_with_signs_from(ms: Seq<Seq<isize>>, x: int)
    requires
        0 <= x < with_signs(ms).len(),
    ensures
        exists|k: int, y: int|
            0 <= k < ms.len() && 0 <= y < signs_from(ms[k], power(2, ms[k].len()) as nat).len()
                && #[trigger] signs_from(ms[k], power(2, ms[k].len()) as nat)[y] == with_signs(ms)[x],
    decreases ms.len(),
{
    let a = with_signs(ms.drop_last());
    let b = signs_from(ms.last(), power(2, ms.last().len()) as nat);
    assert(with_signs(ms) == a + b);
    let k = ms.len() - 1;
    if x >= a.len() {
        assert(b[x - a.len()] == with_signs(ms)[x]);
        assert(signs_from(ms[k], power(2, ms[k].len()) as nat)[x - a.len()] == with_signs(ms)[x]);
    } else {
        lemma_with_signs_from(ms.drop_last(), x);
        let (k0, y0) = choose|k0: int, y0: int|
            0 <= k0 < ms.drop_last().len() && 0 <= y0 < signs_from(
                ms.drop_last()[k0],
                power(2, ms.drop_last()[k0].len()) as nat,
            ).len() && #[trigger] signs_from(
                ms.drop_last()[k0],
                power(2, ms.drop_last()[k0].len()) as nat,
            )[y0] == a[x];
        assert(ms[k0] == ms.drop_last()[k0]);
        assert(signs_from(ms[k0], power(2, ms[k0].len()) as nat)[y0] == with_signs(ms)[x]);
    }
}

/// Every signed motion that a board of `d` components and squared length
/// `p` visits has `d` components whose squares sum to `p`, and its first
/// nonzero component is positive.
pub proof fn lemma_board_motions_sound(p: int, d: nat, x: int)
    requires
        1 <= p < isize::MAX,
        0 <= x < board_motions(p, d).len(),
    ensures
        board_motions(p, d)[x].len() == d,
        sum_squares(board_motions(p, d)[x], d) == p,
        leads_positive(board_motions(p, d)[x]),
{
    let ms = board_magnitudes(p, d);
    lemma_with_signs_from(ms, x);
    let (k, y) = choose|k: int, y: int|
        0 <= k < ms.len() && 0 <= y < signs_from(ms[k], power(2, ms[k].len()) as nat).len()
            && #[trigger] signs_from(ms[k], power(2, ms[k].len()) as nat)[y] == with_signs(ms)[x];
    let z = Seq::new(d, |j: int| 0isize);
    assert(sum_squares(z, d) == 0) by {
        lemma_zero_tail(z, 0, d);
    }
    lemma_motions_after_sound(z, p, power(p + 1, d) as nat, k);
    let m = ms[k];
    assert forall|j: int| 0 <= j < d implies 0 <= #[trigger] m[j] < isize::MAX by {
        lemma_sum_squares_monotone(m, j as nat, d);
        lemma_sum_squares_monotone(m, 0, j as nat);
        let v = m[j] as int;
        assert(v <= v * v) by (nonlinear_arith)
            requires
                v >= 0,
        ;
    }
    assert(signing_of(m, m));
    lemma_signs_from_sound(m, m, power(2, d) as nat, y);
    let t = board_motions(p, d)[x];
    lemma_sum_squares_signs(t, m, d);
}

/// Lexicographic order is transitive.
pub proof fn lemma_lex_trans(a: Seq<isize>, b: Seq<isize>, c: Seq<isize>)
    requires
        lex_before(a, b),
        lex_before(b, c),
    ensures
        lex_before(a, c),
{
    let i = choose|j: int| #[trigger] lex_at(a, b, j);
    let j = choose|l: int| #[trigger] lex_at(b, c, l);
    let k = if i < j {
        i
    } else {
        j
    };
    assert(lex_at(a, c, k));
}

/// The motions after a feasible one each come after it, and each after the
/// ones before it.
pub proof fn lemma_motions_after_increasing(del: Seq<isize>, p: int, fuel: nat)
    requires
        0 <= p < isize::MAX,
        feasible(del, p),
    ensures
        forall|k: int|
            0 <= k < motions_after(del, p, fuel).len() ==> lex_before(
                del,
                #[trigger] motions_after(del, p, fuel)[k],
            ),
        forall|j: int, k: int|
            0 <= j < k < motions_after(del, p, fuel).len() ==> lex_before(
                #[trigger] motions_after(del, p, fuel)[j],
                #[trigger] motions_after(del, p, fuel)[k],
            ),
    decreases fuel,
{
    let d = del.len();
    if fuel > 0 {
        lemma_advance(del, del, p, d);
        match advance_from(del, p, d) {
            None => {},
            Some(n) => {
                let i = choose|i: int|
                    {
                        &&& 0 <= i < d
                        &&& n.len() == del.len()
                        &&& forall|j: int| 0 <= j < i ==> #[trigger] n[j] == del[j]
                        &&& n[i] == del[i] + 1
                        &&& forall|j: int| i < j < del.len() ==> #[trigger] n[j] == 0
                        &&& !#[trigger] full_at(del, p, i)
                        &&& forall|j: int| i < j < del.len() ==> #[trigger] full_at(del, p, j)
                    };
                lemma_next_motion(del, p, n, i);
                let head = if sum_squares(n, n.len()) == p {
                    seq![n]
                } else {
                    Seq::<Seq<isize>>::empty()
                };
                let rest = motions_after(n, p, (fuel - 1) as nat);
                let ms = motions_after(del, p, fuel);
                assert(ms == head + rest);
                lemma_motions_after_increasing(n, p, (fuel - 1) as nat);
                assert forall|k: int| 0 <= k < ms.len() implies lex_before(del, #[trigger] ms[k]) by {
                    if k >= head.len() {
                        assert(ms[k] == rest[k - head.len()]);
                        lemma_lex_trans(del, n, rest[k - head.len()]);
                    } else {
                        assert(ms[k] == n);
                    }
                }
                assert forall|j: int, k: int| 0 <= j < k < ms.len() implies lex_before(
                    #[trigger] ms[j],
                    #[trigger] ms[k],
                ) by {
                    assert(ms[k] == rest[k - head.len()]);
                    if j >= head.len() {
                        assert(ms[j] == rest[j - head.len()]);
                    } else {
                        assert(ms[j] == n);
                    }
                }
            },
        }
    }
}

/// The signings after a signing of `m` whose first nonzero component is
/// positive have the negative components of each after those of the ones
/// before it.
pub proof fn lemma_signs_from_increasing(sigma: Seq<isize>, m: Seq<isize>, fuel: nat)
    requires
        signable(m),
        signing_of(sigma, m),
        leads_positive(sigma),
    ensures
        forall|j: int, k: int|
            0 <= j < k < signs_from(sigma, fuel).len() ==> lex_before(
                neg_bits(#[trigger] signs_from(sigma, fuel)[j]),
                neg_bits(#[trigger] signs_from(sigma, fuel)[k]),
            ),
        forall|k: int|
            0 < k < signs_from(sigma, fuel).len() ==> lex_before(
                neg_bits(sigma),
                neg_bits(#[trigger] signs_from(sigma, fuel)[k]),
            ),
        signs_from(sigma, fuel).len() > 0 ==> signs_from(sigma, fuel)[0] == sigma,
    decreases fuel,
{
    let d = m.len();
    if fuel > 0 {
        let rest = match sign_step(sigma, d) {
            None => Seq::<Seq<isize>>::empty(),
            Some(n) => signs_from(n, (fuel - 1) as nat),
        };
        let ss = signs_from(sigma, fuel);
        assert(ss == seq![sigma] + rest);
        lemma_sign_advance(sigma, sigma, m, d);
        match sign_step(sigma, d) {
            None => {},
            Some(n) => {
                let i = choose|i: int|
                    {
                        &&& 0 <= i < d
                        &&& n.len() == m.len()
                        &&& forall|j: int| 0 <= j < i ==> #[trigger] n[j] == sigma[j]
                        &&& #[trigger] sigma[i] > 0
                        &&& sum_squares(sigma, i as nat) != 0
                        &&& n[i] == -sigma[i]
                        &&& forall|j: int| i < j < m.len() ==> #[trigger] n[j] == m[j]
                        &&& forall|j: int| i < j < m.len() ==> #[trigger] sigma[j] <= 0
                    };
                lemma_next_signing(sigma, m, n, i);
                lemma_signs_from_increasing(n, m, (fuel - 1) as nat);
                assert forall|k: int| 0 < k < ss.len() implies lex_before(
                    neg_bits(sigma),
                    neg_bits(#[trigger] ss[k]),
                ) by {
                    assert(ss[k] == rest[k - 1]);
                    if k > 1 {
                        lemma_lex_trans(neg_bits(sigma), neg_bits(n), neg_bits(rest[k - 1]));
                    }
                }
                assert forall|j: int, k: int| 0 <= j < k < ss.len() implies lex_before(
                    neg_bits(#[trigger] ss[j]),
                    neg_bits(#[trigger] ss[k]),
                ) by {
                    assert(ss[k] == rest[k - 1]);
                    if j > 0 {
                        assert(ss[j] == rest[j - 1]);
                    } else {
                        assert(ss[j] == sigma);
                        if k > 1 {
                            lemma_lex_trans(neg_bits(sigma), neg_bits(n), neg_bits(rest[k - 1]));
                        }
                    }
                }
            },
        }
    }
}

/// Nothing comes before itself.
pub proof fn lemma_lex_irreflexive(a: Seq<isize>)
    ensures
        !lex_before(a, a),
{
    if lex_before(a, a) {
        let j = choose|j: int| #[trigger] lex_at(a, a, j);
        assert(a[j] < a[j]);
    }
}

/// A signing of a nonnegative motion gives the motion back as its
/// magnitudes, so signings of different nonnegative motions differ.
pub proof fn lemma_signings_differ(tau: Seq<isize>, m1: Seq<isize>, m2: Seq<isize>)
    requires
        signing_of(tau, m1),
        signing_of(tau, m2),
        signable(m1),
        signable(m2),
    ensures
        m1 == m2,
{
    assert forall|j: int| 0 <= j < m1.len() implies m1[j] == m2[j] by {
        assert(0 <= m1[j] && 0 <= m2[j]);
        assert(tau[j] == m1[j] || tau[j] == -m1[j]);
        assert(tau[j] == m2[j] || tau[j] == -m2[j]);
    }
    assert(m1 =~= m2);
}

/// The signed motions of distinct signable motions are visited once each.
pub proof fn lemma_with_signs_distinct(ms: Seq<Seq<isize>>)
    requires
        ms.no_duplicates(),
        forall|k: int| 0 <= k < ms.len() ==> signable(#[trigger] ms[k]),
    ensures
        with_signs(ms).no_duplicates(),
        forall|x: int|
            0 <= x < with_signs(ms).len() ==> exists|k: int|
                0 <= k < ms.len() && signing_of(#[trigger] with_signs(ms)[x], ms[k]),
    decreases ms.len(),
{
    if ms.len() > 0 {
        let front = ms.drop_last();
        let last = ms.last();
        assert forall|k: int| 0 <= k < front.len() implies signable(#[trigger] front[k]) by {
            assert(front[k] == ms[k]);
        }
        assert(front.no_duplicates()) by {
            assert forall|i: int, j: int| 0 <= i < j < front.len() implies front[i] != front[j] by {
                assert(front[i] == ms[i] && front[j] == ms[j]);
            }
        }
        lemma_with_signs_distinct(front);
        let a = with_signs(front);
        let b = signs_from(last, power(2, last.len()) as nat);
        let all = with_signs(ms);
        assert(all == a + b);
        assert(signing_of(last, last));
        assert(leads_positive(last)) by {
            assert forall|j: int| 0 <= j < last.len() && sum_squares(last, j as nat) == 0 implies 0
                <= #[trigger] last[j] by {
                assert(signable(ms[ms.len() - 1]));
            }
        }
        assert(signable(last)) by {
            assert(signable(ms[ms.len() - 1]));
        }
        lemma_signs_from_increasing(last, last, power(2, last.len()) as nat);
        assert forall|y: int| 0 <= y < b.len() implies signing_of(#[trigger] b[y], last) by {
            lemma_signs_from_sound(last, last, power(2, last.len()) as nat, y);
        }
        assert forall|x: int| 0 <= x < all.len() implies exists|k: int|
            0 <= k < ms.len() && signing_of(#[trigger] all[x], ms[k]) by {
            if x < a.len() {
                let k = choose|k: int| 0 <= k < front.len() && signing_of(#[trigger] a[x], front[k]);
                assert(all[x] == a[x] && ms[k] == front[k]);
            } else {
                assert(all[x] == b[x - a.len()]);
                assert(ms[ms.len() - 1] == last);
            }
        }
        assert forall|i: int, j: int| 0 <= i < j < all.len() implies all[i] != all[j] by {
            if j < a.len() {
                assert(all[i] == a[i] && all[j] == a[j]);
            } else if i >= a.len() {
                assert(all[i] == b[i - a.len()] && all[j] == b[j - a.len()]);
                if all[i] == all[j] {
                    lemma_lex_irreflexive(neg_bits(all[i]));
                }
            } else {
                assert(all[i] == a[i] && all[j] == b[j - a.len()]);
                if all[i] == all[j] {
                    let k = choose|k: int| 0 <= k < front.len() && signing_of(#[trigger] a[i], front[k]);
                    assert(front[k] == ms[k]);
                    assert(signable(ms[k]));
                    lemma_signings_differ(all[i], front[k], last);
                    assert(ms[k] == ms[ms.len() - 1]);
                }
            }
        }
    }
}

/// The enumeration of a board visits each signed motion once.
pub proof fn lemma_board_motions_distinct(p: int, d: nat)
    requires
        1 <= p < isize::MAX,
    ensures
        board_motions(p, d).no_duplicates(),
{
    let ms = board_magnitudes(p, d);
    let z = Seq::new(d, |j: int| 0isize);
    assert(sum_squares(z, d) == 0) by {
        lemma_zero_tail(z, 0, d);
    }
    lemma_motions_after_increasing(z, p, power(p + 1, d) as nat);
    assert(ms.no_duplicates()) by {
        assert forall|i: int, j: int| 0 <= i < j < ms.len() implies ms[i] != ms[j] by {
            if ms[i] == ms[j] {
                lemma_lex_irreflexive(ms[i]);
            }
        }
    }
    assert forall|k: int| 0 <= k < ms.len() implies signable(#[trigger] ms[k]) by {
        lemma_motions_after_sound(z, p, power(p + 1, d) as nat, k);
        let m = ms[k];
        assert forall|j: int| 0 <= j < m.len() implies 0 <= #[trigger] m[j] < isize::MAX by {
            lemma_sum_squares_monotone(m, j as nat, d);
            lemma_sum_squares_monotone(m, 0, j as nat);
            let v = m[j] as int;
            assert(v <= v * v) by (nonlinear_arith)
                requires
                    v >= 0,
            ;
        }
    }
    lemma_with_signs_distinct(ms);
}

} // verus!
