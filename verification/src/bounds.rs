//! The rewriting of trait bounds that ask for field extensions: a bound
//! `FieldsExt<T, N>` stands for the `N` bounds `Field<T, 0>` to
//! `Field<T, N - 1>`.
use vstd::prelude::*;

verus! {

/// A trait bound, as far as the rewriting reads it.
#[derive(Debug)]
pub enum BoundDesc {
    /// `FieldsExt<..>`: its first argument where that is a type, and its last
    /// where that is an integer literal.
    FieldsExt { ty: Option<String>, count: Option<usize> },
    /// `Field<ty, index>`.
    Field { ty: String, index: usize },
    /// Any other bound, by its text.
    Other(String),
}

/// The index of the first `FieldsExt` bound among `bounds`.
pub open spec fn first_fields_ext(bounds: Seq<BoundDesc>) -> Option<int>
    decreases bounds.len(),
{
    if bounds.len() == 0 {
        None
    } else {
        match first_fields_ext(bounds.drop_last()) {
            Some(i) => Some(i),
            None => if bounds.last() is FieldsExt {
                Some(bounds.len() - 1)
            } else {
                None
            },
        }
    }
}

/// The bounds after the rewriting: the first `FieldsExt<T, N>` bound, where
/// both its type and its count are given, is taken out and `Field<T, i>` for
/// each `i` below `N` is added at the end; otherwise the bounds stay.
pub open spec fn processed_bounds(bounds: Seq<BoundDesc>) -> Seq<BoundDesc> {
    match first_fields_ext(bounds) {
        Some(idx) => match bounds[idx] {
            BoundDesc::FieldsExt { ty: Some(t), count: Some(n) } => bounds.remove(idx) + Seq::new(
                n as nat,
                |i: int| BoundDesc::Field { ty: t, index: i as usize },
            ),
            _ => bounds,
        },
        None => bounds,
    }
}

/// The first `FieldsExt` bound is the first bound that is one.
pub proof fn lemma_first_fields_ext(bounds: Seq<BoundDesc>, k: nat)
    requires
        k <= bounds.len(),
        forall|j: int| 0 <= j < k ==> !(#[trigger] bounds[j] is FieldsExt),
    ensures
        first_fields_ext(bounds.take(k as int)) is None,
        k < bounds.len() && bounds[k as int] is FieldsExt ==> first_fields_ext(
            bounds.take(k as int + 1),
        ) == Some(k as int),
    decreases k,
{
    if k > 0 {
        lemma_first_fields_ext(bounds, (k - 1) as nat);
        assert(bounds.take(k as int).drop_last() =~= bounds.take(k - 1));
    }
    if k < bounds.len() && bounds[k as int] is FieldsExt {
        assert(bounds.take(k as int + 1).drop_last() =~= bounds.take(k as int));
    }
}

/// Where a prefix holds a `FieldsExt` bound, so do the bounds, at the same
/// index.
pub proof fn lemma_first_fields_ext_extend(bounds: Seq<BoundDesc>, k: nat)
    requires
        k <= bounds.len(),
        first_fields_ext(bounds.take(k as int)) is Some,
    ensures
        first_fields_ext(bounds) == first_fields_ext(bounds.take(k as int)),
    decreases bounds.len() - k,
{
    if k < bounds.len() {
        assert(bounds.take(k as int + 1).drop_last() =~= bounds.take(k as int));
        assert(first_fields_ext(bounds.take(k as int + 1)) == first_fields_ext(
            bounds.take(k as int),
        ));
        lemma_first_fields_ext_extend(bounds, k + 1);
    } else {
        assert(bounds.take(k as int) =~= bounds);
    }
}

/// A copy of a bound.
fn copy_bound(b: &BoundDesc) -> (r: BoundDesc)
    ensures
        r == *b,
{
    match b {
        BoundDesc::FieldsExt { ty, count } => BoundDesc::FieldsExt {
            ty: match ty {
                Some(t) => Some(t.clone()),
                None => None,
            },
            count: *count,
        },
        BoundDesc::Field { ty, index } => BoundDesc::Field { ty: ty.clone(), index: *index },
        BoundDesc::Other(s) => BoundDesc::Other(s.clone()),
    }
}

/// Rewrites the first `FieldsExt<T, N>` bound into the bounds `Field<T, 0>`
/// to `Field<T, N - 1>`, as `processed_bounds` states.
pub fn process_bounds(bounds: &Vec<BoundDesc>) -> (r: Vec<BoundDesc>)
    ensures
        r@ == processed_bounds(bounds@),
{
    let mut idx: usize = 0;
    while idx < bounds.len()
        invariant
            idx <= bounds@.len(),
            forall|j: int| 0 <= j < idx ==> !(#[trigger] bounds@[j] is FieldsExt),
        ensures
            idx <= bounds@.len(),
            forall|j: int| 0 <= j < idx ==> !(#[trigger] bounds@[j] is FieldsExt),
            idx < bounds@.len() ==> bounds@[idx as int] is FieldsExt,
        decreases bounds@.len() - idx,
    {
        if let BoundDesc::FieldsExt { .. } = &bounds[idx] {
            break;
        }
        idx = idx + 1;
    }
    proof {
        lemma_first_fields_ext(bounds@, idx as nat);
        if idx < bounds@.len() {
            lemma_first_fields_ext_extend(bounds@, idx as nat + 1);
        } else {
            assert(bounds@.take(idx as int) =~= bounds@);
        }
    }
    let mut out: Vec<BoundDesc> = Vec::new();
    if idx < bounds.len() {
        if let BoundDesc::FieldsExt { ty: Some(t), count: Some(n) } = &bounds[idx] {
            let mut i: usize = 0;
            while i < bounds.len()
                invariant
                    i <= bounds@.len(),
                    idx < bounds@.len(),
                    i <= idx ==> out@ == bounds@.take(i as int),
                    i > idx ==> out@ == bounds@.take(i as int).remove(idx as int),
                decreases bounds@.len() - i,
            {
                if i != idx {
                    out.push(copy_bound(&bounds[i]));
                }
                i = i + 1;
                proof {
                    if i <= idx {
                        assert(out@ =~= bounds@.take(i as int));
                    } else if i == idx + 1 {
                        assert(out@ =~= bounds@.take(i as int).remove(idx as int));
                    } else {
                        assert(out@ =~= bounds@.take(i as int).remove(idx as int));
                    }
                }
            }
            assert(bounds@.take(i as int) =~= bounds@);
            let ghost kept = out@;
            let mut k: usize = 0;
            while k < *n
                invariant
                    k <= *n,
                    out@ == kept + Seq::new(
                        k as nat,
                        |j: int| BoundDesc::Field { ty: *t, index: j as usize },
                    ),
                decreases *n - k,
            {
                out.push(BoundDesc::Field { ty: t.clone(), index: k });
                k = k + 1;
                assert(out@ =~= kept + Seq::new(
                    k as nat,
                    |j: int| BoundDesc::Field { ty: *t, index: j as usize },
                ));
            }
            return out;
        }
    }
    let mut i: usize = 0;
    while i < bounds.len()
        invariant
            i <= bounds@.len(),
            out@ == bounds@.take(i as int),
        decreases bounds@.len() - i,
    {
        out.push(copy_bound(&bounds[i]));
        i = i + 1;
        assert(out@ =~= bounds@.take(i as int));
    }
    assert(bounds@.take(i as int) =~= bounds@);
    out
}

/// The bound `first_fields_ext` picks is the first `FieldsExt` bound: no bound
/// before it is one; where it picks none, no bound is one.
pub proof fn lemma_first_fields_ext_first(bounds: Seq<BoundDesc>)
    ensures
        first_fields_ext(bounds) matches Some(i) ==> {
            &&& 0 <= i < bounds.len()
            &&& bounds[i] is FieldsExt
            &&& forall|j: int| 0 <= j < i ==> !(#[trigger] bounds[j] is FieldsExt)
        },
        first_fields_ext(bounds) is None ==> forall|j: int|
            0 <= j < bounds.len() ==> !(#[trigger] bounds[j] is FieldsExt),
    decreases bounds.len(),
{
    if bounds.len() > 0 {
        let front = bounds.drop_last();
        lemma_first_fields_ext_first(front);
        assert(bounds.last() == bounds[bounds.len() - 1]);
        match first_fields_ext(front) {
            Some(i) => {
                assert(bounds[i] == front[i]);
                assert forall|j: int| 0 <= j < i implies !(#[trigger] bounds[j] is FieldsExt) by {
                    assert(front[j] == bounds[j]);
                }
            },
            None => {
                assert forall|j: int| 0 <= j < bounds.len() - 1 implies !(
                #[trigger] bounds[j] is FieldsExt) by {
                    assert(front[j] == bounds[j]);
                }
            },
        }
    }
}

/// The rewriting of the bounds: where the first `FieldsExt` bound, at `i`,
/// gives both a type `t` and a count `n`, the bounds before it stay, those
/// after it move up by one, and `Field<t, 0>` to `Field<t, n - 1>` follow
/// them; otherwise the bounds stay as they are.
pub proof fn lemma_processed_bounds(bounds: Seq<BoundDesc>)
    ensures
        ({
            let r = processed_bounds(bounds);
            match first_fields_ext(bounds) {
                Some(i) => match bounds[i] {
                    BoundDesc::FieldsExt { ty: Some(t), count: Some(n) } => {
                        &&& bounds[i] is FieldsExt
                        &&& forall|j: int| 0 <= j < i ==> !(#[trigger] bounds[j] is FieldsExt)
                        &&& r.len() == bounds.len() - 1 + n
                        &&& forall|j: int| 0 <= j < i ==> #[trigger] r[j] == bounds[j]
                        &&& forall|j: int| i <= j < bounds.len() - 1 ==> #[trigger] r[j] == bounds[j + 1]
                        &&& forall|k: int|
                            0 <= k < n ==> #[trigger] r[bounds.len() - 1 + k] == (BoundDesc::Field {
                                ty: t,
                                index: k as usize,
                            })
                    },
                    _ => r == bounds,
                },
                None => r == bounds && forall|j: int|
                    0 <= j < bounds.len() ==> !(#[trigger] bounds[j] is FieldsExt),
            }
        }),
{
    lemma_first_fields_ext_first(bounds);
}

} // verus!
