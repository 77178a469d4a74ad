//! Typed buckets of auxiliary fields that graph primitives carry.
use vstd::prelude::*;

verus! {

/// Which allocation failed while fields were being set up, with the name of
/// the field type involved.
#[derive(Debug)]
pub enum AllocFailureKind {
    Type(&'static str),
    Bucket(&'static str),
    BucketKey(&'static str),
}

/// Failure to make room for the fields of one type.
#[derive(Debug)]
pub struct FieldsExtError(pub AllocFailureKind);

/// The auxiliary fields of a graph primitive, one bucket per field type.
/// A bucket that was never asked for is absent.
#[derive(Debug)]
pub struct FieldBuilder {
    pub usizes: Option<Vec<usize>>,
    pub strings: Option<Vec<String>>,
}

/// The number of fields a bucket holds; an absent bucket holds none.
pub open spec fn bucket_len<T>(bucket: Option<Vec<T>>) -> nat {
    match bucket {
        Some(v) => v@.len(),
        None => 0,
    }
}

/// The contents of a bucket, as a sequence; an absent bucket is empty.
pub open spec fn bucket_items<T>(bucket: Option<Vec<T>>) -> Seq<T> {
    match bucket {
        Some(v) => v@,
        None => Seq::empty(),
    }
}

/// A bucket's contents after room was made for `n` fields, new ones being `fill`.
pub open spec fn padded<T>(items: Seq<T>, n: nat, fill: T) -> Seq<T> {
    if items.len() >= n {
        items
    } else {
        items + Seq::new((n - items.len()) as nat, |i: int| fill)
    }
}

/// Making room for fields twice is making room once: the fields added the
/// first time are kept, and none is added the second time.
pub proof fn lemma_padded_idempotent<T>(items: Seq<T>, n: nat, fill: T)
    ensures
        padded(padded(items, n, fill), n, fill) == padded(items, n, fill),
        padded(items, n, fill).len() >= n,
        padded(items, n, fill).len() >= items.len(),
{
}

/// A bucket that already holds at least `n` fields is handed out as it is:
/// what was written into its fields is read back.
pub proof fn lemma_padded_keeps_written<T>(items: Seq<T>, n: nat, fill: T)
    requires
        items.len() >= n,
    ensures
        padded(items, n, fill) == items,
{
}

/// Making room for `n` fields keeps the existing ones in place and gives the
/// new ones the value `fill`.
pub proof fn lemma_padded_items<T>(items: Seq<T>, n: nat, fill: T, i: int)
    requires
        0 <= i < padded(items, n, fill).len(),
    ensures
        i < items.len() ==> padded(items, n, fill)[i] == items[i],
        i >= items.len() ==> padded(items, n, fill)[i] == fill,
{
}

/// Two buckets that are both absent, or both present with the same contents.
pub open spec fn same_bucket<T>(a: Option<Vec<T>>, b: Option<Vec<T>>) -> bool {
    &&& (a is None <==> b is None)
    &&& bucket_items(a) == bucket_items(b)
}

/// The views of a sequence of strings.
pub open spec fn string_views(s: Seq<String>) -> Seq<Seq<char>> {
    s.map_values(|x: String| x@)
}

/// `grown` keeps every item of `items` in place and adds at most up to `n` items,
/// each one that `producer` may hand out.
pub open spec fn grown_by<T, F: Fn() -> Result<T, FieldsExtError>>(
    items: Seq<T>,
    grown: Seq<T>,
    producer: F,
) -> bool {
    &&& items.len() <= grown.len()
    &&& grown.subrange(0, items.len() as int) == items
    &&& forall|i: int|
        items.len() <= i < grown.len() ==> producer.ensures((), Ok::<T, FieldsExtError>(#[trigger] grown[i]))
}

impl FieldBuilder {
    /// A builder with no bucket.
    pub fn new() -> (r: Self)
        ensures
            r.usizes is None,
            r.strings is None,
    {
        FieldBuilder { usizes: None, strings: None }
    }
}

impl Default for FieldBuilder {
    fn default() -> (r: Self)
        ensures
            r.usizes is None,
            r.strings is None,
    {
        FieldBuilder::new()
    }
}

/// Appends fields asked of `producer` until `entry` holds `n` of them, or
/// `producer` fails; what was appended before a failure stays.
fn extend_to<T, F: Fn() -> Result<T, FieldsExtError>>(
    entry: &mut Vec<T>,
    n: usize,
    producer: &F,
) -> (r: Result<(), FieldsExtError>)
    requires
        forall|| #[trigger] producer.requires(()),
    ensures
        grown_by(old(entry)@, final(entry)@, *producer),
        r is Ok ==> final(entry)@.len() == if old(entry)@.len() >= n {
            old(entry)@.len()
        } else {
            n as nat
        },
        r matches Err(e) ==> producer.ensures((), Err::<T, FieldsExtError>(e)),
        old(entry)@.len() >= n ==> r is Ok && final(entry)@ == old(entry)@,
{
    let ghost start = entry@;
    assert(entry@.subrange(0, start.len() as int) =~= start);
    while entry.len() < n
        invariant
            forall|| #[trigger] producer.requires(()),
            grown_by(start, entry@, *producer),
            start == old(entry)@,
            start.len() >= n ==> entry@ == start,
            start.len() < n ==> entry@.len() <= n,
        decreases n - entry.len(),
    {
        match producer() {
            Ok(x) => {
                let ghost before = entry@;
                entry.push(x);
                assert(entry@.subrange(0, start.len() as int) =~= before.subrange(
                    0,
                    start.len() as int,
                ));
            },
            Err(e) => {
                return Err(e);
            },
        }
    }
    Ok(())
}

/// Makes sure that `bucket` holds at least `n` fields, asking `producer` for
/// each missing one, and hands out the bucket.
///
/// Room for `n` more fields is reserved first. An absent bucket is created
/// whole or not at all; an existing bucket keeps the fields that were added
/// before a failure of `producer`.
pub fn fill_bucket<'a, T, F: Fn() -> Result<T, FieldsExtError>>(
    bucket: &'a mut Option<Vec<T>>,
    n: usize,
    kind_name: &'static str,
    producer: F,
) -> (r: Result<&'a mut Vec<T>, FieldsExtError>)
    requires
        forall|| #[trigger] producer.requires(()),
    ensures
        r matches Ok(v) ==> {
            &&& *final(bucket) == Some(*final(v))
            &&& grown_by(bucket_items(*old(bucket)), v@, producer)
            &&& v@.len() == if bucket_len(*old(bucket)) >= n {
                bucket_len(*old(bucket))
            } else {
                n as nat
            }
        },
        bucket_len(*old(bucket)) >= n ==> (r matches Err(e) ==> e == FieldsExtError(
            AllocFailureKind::Bucket(kind_name),
        ) && same_bucket(*final(bucket), *old(bucket))),
        r matches Err(e) ==> {
            ||| (e == FieldsExtError(AllocFailureKind::Bucket(kind_name)) && same_bucket(*final(bucket), *old(bucket)))
            ||| (producer.ensures((), Err::<T, FieldsExtError>(e))
                && (*old(bucket) is None ==> *final(bucket) is None)
                && (*old(bucket) is Some ==> (*final(bucket) matches Some(w)
                    && grown_by(bucket_items(*old(bucket)), w@, producer))))
        },
{
    if bucket.is_none() {
        let mut entry: Vec<T> = Vec::new();
        if entry.try_reserve(n).is_err() {
            return Err(FieldsExtError(AllocFailureKind::Bucket(kind_name)));
        }
        match extend_to(&mut entry, n, &producer) {
            Ok(()) => {},
            Err(e) => {
                return Err(e);
            },
        }
        *bucket = Some(entry);
        match bucket {
            Some(entry) => Ok(entry),
            None => Err(FieldsExtError(AllocFailureKind::Bucket(kind_name))),
        }
    } else {
        match bucket {
            Some(entry) => {
                if entry.try_reserve(n).is_err() {
                    assert(entry@.subrange(0, entry@.len() as int) =~= entry@);
                    return Err(FieldsExtError(AllocFailureKind::Bucket(kind_name)));
                }
                match extend_to(entry, n, &producer) {
                    Ok(()) => Ok(entry),
                    Err(e) => Err(e),
                }
            },
            None => Err(FieldsExtError(AllocFailureKind::Bucket(kind_name))),
        }
    }
}
} // verus!
