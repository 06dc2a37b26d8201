use core::marker::PhantomData;
use vstd::pervasive::cloned;
use vstd::prelude::*;

use crate::date::Date;
use crate::dated::Dated;
use crate::period::Period;

verus! {

/// `d` lies in the span that starts at `start` and ends before `end`.
pub open spec fn in_span(start: Date, end: Date, d: Date) -> bool {
    start.on_or_before(d) && d.before(end)
}

/// Start of the period after the one that starts at `key`.
pub open spec fn period_end<P: Period>(key: Date) -> Date {
    P::spec_advance(key).unwrap()
}

/// A record's date lies in the period that starts at `key`.
pub open spec fn in_period<T: Dated, P: Period>(key: Date) -> spec_fn(T) -> bool {
    |r: T| in_span(key, period_end::<P>(key), r.date_of())
}

/// The records whose date lies in the period that starts at `key`, in their order.
pub open spec fn records_in<T: Dated, P: Period>(records: Seq<T>, key: Date) -> Seq<T> {
    records.filter(in_period::<T, P>(key))
}

/// `copies` holds a clone of each of `originals`, in the same order.
pub open spec fn clones_of<T: Clone>(copies: Seq<T>, originals: Seq<T>) -> bool {
    &&& copies.len() == originals.len()
    &&& forall|j: int| 0 <= j < copies.len() ==> cloned(originals[j], copies[j])
}

/// `e` is the date of one of `records` and on or before the date of each.
#[verifier::opaque]
pub open spec fn is_earliest<T: Dated>(records: Seq<T>, e: Date) -> bool {
    &&& exists|j: int| 0 <= j < records.len() && records[j].date_of() == e
    &&& forall|j: int| 0 <= j < records.len() ==> e.on_or_before(records[j].date_of())
}

/// `l` is the date of one of `records` and on or after the date of each.
#[verifier::opaque]
pub open spec fn is_latest<T: Dated>(records: Seq<T>, l: Date) -> bool {
    &&& exists|j: int| 0 <= j < records.len() && records[j].date_of() == l
    &&& forall|j: int| 0 <= j < records.len() ==> records[j].date_of().on_or_before(l)
}

/// Each key is followed by the start of the next period.
pub open spec fn is_chain<P: Period>(keys: Seq<Date>) -> bool {
    forall|i: int| 0 <= i < keys.len() - 1 ==> #[trigger] P::spec_advance(keys[i]) == Some(keys[i + 1])
}

/// The keys run from the period of the earliest record to the period of the
/// latest, one period at a time.
pub open spec fn spans_records<T: Dated, P: Period>(records: Seq<T>, keys: Seq<Date>) -> bool {
    if records.len() == 0 {
        keys.len() == 0
    } else {
        &&& keys.len() > 0
        &&& is_chain::<P>(keys)
        &&& forall|e: Date| is_earliest(records, e) ==> P::spec_beginning(e) == Some(keys[0])
        &&& forall|l: Date| #[trigger]
            is_latest(records, l) ==> keys.last().on_or_before(l) && P::spec_advance(keys.last()) is Some
                && l.before(period_end::<P>(keys.last()))
    }
}

/// `keys` and `buckets` group `records` by period: the keys span the records'
/// periods, and the bucket of each key holds clones of the records in its
/// period, in their order.
pub open spec fn groups<T: Dated + Clone, P: Period>(
    records: Seq<T>,
    keys: Seq<Date>,
    buckets: Seq<Seq<T>>,
) -> bool {
    &&& spans_records::<T, P>(records, keys)
    &&& buckets.len() == keys.len()
    &&& forall|i: int| 0 <= i < keys.len() ==> clones_of(buckets[i], records_in::<T, P>(records, #[trigger] keys[i]))
}

/// Walking from the period of the earliest record towards the latest record,
/// some period's start, or the start after it, falls out of range.
pub open spec fn walk_fails<T: Dated, P: Period>(records: Seq<T>) -> bool {
    &&& records.len() > 0
    &&& forall|e: Date, l: Date| is_earliest(records, e) && is_latest(records, l) ==> {
        ||| P::spec_beginning(e) is None
        ||| exists|keys: Seq<Date>| {
            &&& keys.len() > 0
            &&& P::spec_beginning(e) == Some(keys[0])
            &&& is_chain::<P>(keys)
            &&& forall|i: int| 0 <= i < keys.len() ==> (#[trigger] keys[i]).on_or_before(l)
            &&& P::spec_advance(keys.last()) is None
        }
    }
}

proof fn lemma_has_range<T: Dated>(records: Seq<T>)
    requires
        records.len() > 0,
    ensures
        exists|e: Date| is_earliest(records, e),
        exists|l: Date| #[trigger] is_latest(records, l),
    decreases records.len(),
{
    reveal(is_earliest);
    reveal(is_latest);
    let last = records.last().date_of();
    if records.len() == 1 {
        assert(is_earliest(records, last));
        assert(is_latest(records, last));
    } else {
        let front = records.drop_last();
        lemma_has_range(front);
        let e0 = choose|e: Date| is_earliest(front, e);
        let l0 = choose|l: Date| #[trigger] is_latest(front, l);
        assert(forall|j: int| 0 <= j < front.len() ==> records[j] == front[j]);
        let e = if last.before(e0) { last } else { e0 };
        let l = if l0.before(last) { last } else { l0 };
        assert(is_earliest(records, e));
        assert(is_latest(records, l));
    }
}

/// Keys that follow one another period by period from a valid period start
/// are valid period starts, strictly increasing.
proof fn lemma_chain_increasing<P: Period>(keys: Seq<Date>)
    requires
        keys.len() > 0,
        keys[0].wf(),
        P::spec_beginning(keys[0]) == Some(keys[0]),
        is_chain::<P>(keys),
    ensures
        forall|i: int| 0 <= i < keys.len() ==> (#[trigger] keys[i]).wf(),
        forall|i: int| 0 <= i < keys.len() ==> P::spec_beginning(#[trigger] keys[i]) == Some(keys[i]),
        forall|i: int, j: int| 0 <= i < j < keys.len() ==> (#[trigger] keys[i]).before(#[trigger] keys[j]),
        forall|i: int| 0 <= i < keys.len() - 1 ==> #[trigger] period_end::<P>(keys[i]) == keys[i + 1],
    decreases keys.len(),
{
    if keys.len() > 1 {
        let front = keys.drop_last();
        assert forall|i: int| 0 <= i < front.len() - 1 implies #[trigger] P::spec_advance(front[i]) == Some(front[i + 1]) by {
            assert(front[i] == keys[i] && front[i + 1] == keys[i + 1]);
            assert(P::spec_advance(keys[i]) == Some(keys[i + 1]));
        }
        lemma_chain_increasing::<P>(front);
        let n = keys.len() - 1;
        assert(P::spec_advance(keys[n - 1]) == Some(keys[n]));
        assert(front[n - 1] == keys[n - 1]);
        assert(keys[n - 1].wf());
        P::lemma_advance(keys[n - 1]);
        assert forall|i: int, j: int| 0 <= i < j < keys.len() implies (#[trigger] keys[i]).before(
            #[trigger] keys[j],
        ) by {
            if j < n {
                assert(front[i] == keys[i] && front[j] == keys[j]);
            } else if i < n - 1 {
                assert(front[i] == keys[i] && front[n - 1] == keys[n - 1]);
            }
        }
        assert forall|i: int| 0 <= i < keys.len() implies (#[trigger] keys[i]).wf() by {
            if i < n {
                assert(front[i] == keys[i]);
            }
        }
        assert forall|i: int| 0 <= i < keys.len() implies P::spec_beginning(#[trigger] keys[i]) == Some(keys[i]) by {
            if i < n {
                assert(front[i] == keys[i]);
            }
        }
        assert forall|i: int| 0 <= i < keys.len() - 1 implies #[trigger] period_end::<P>(keys[i]) == keys[i + 1] by {
            if i < n - 1 {
                assert(front[i] == keys[i] && front[i + 1] == keys[i + 1]);
            }
        }
    }
}

/// `d` lies in the period of one of `keys`.
pub open spec fn in_some_period<P: Period>(keys: Seq<Date>, d: Date) -> bool {
    exists|i: int| 0 <= i < keys.len() && #[trigger] in_span(keys[i], period_end::<P>(keys[i]), d)
}

proof fn lemma_find_period<P: Period>(keys: Seq<Date>, d: Date, i: int)
    requires
        0 <= i < keys.len(),
        forall|k: int| 0 <= k < keys.len() - 1 ==> #[trigger] period_end::<P>(keys[k]) == keys[k + 1],
        keys[i].on_or_before(d),
        d.before(period_end::<P>(keys.last())),
    ensures
        in_some_period::<P>(keys, d),
    decreases keys.len() - i,
{
    if i < keys.len() - 1 {
        assert(period_end::<P>(keys[i]) == keys[i + 1]);
        if !d.before(keys[i + 1]) {
            lemma_find_period::<P>(keys, d, i + 1);
        } else {
            assert(in_span(keys[i], period_end::<P>(keys[i]), d));
        }
    } else {
        assert(in_span(keys[i], period_end::<P>(keys[i]), d));
    }
}

/// Exhaustive partition: in a grouping of records, the date of every record
/// lies in the period of exactly one key, so each record is cloned into
/// exactly one bucket, where the records keep their order.
pub proof fn lemma_exhaustive_partition<T: Dated + Clone, P: Period>(
    records: Seq<T>,
    keys: Seq<Date>,
    buckets: Seq<Seq<T>>,
)
    requires
        groups::<T, P>(records, keys, buckets),
        forall|j: int| 0 <= j < records.len() ==> (#[trigger] records[j]).date_of().wf(),
    ensures
        forall|j: int| 0 <= j < records.len() ==> #[trigger] in_some_period::<P>(keys, records[j].date_of()),
        forall|j: int, i1: int, i2: int|
            0 <= j < records.len() && 0 <= i1 < keys.len() && 0 <= i2 < keys.len()
                && #[trigger] in_span(keys[i1], period_end::<P>(keys[i1]), records[j].date_of())
                && #[trigger] in_span(keys[i2], period_end::<P>(keys[i2]), records[j].date_of()) ==> i1 == i2,
{
    if records.len() > 0 {
        lemma_has_range(records);
        let e = choose|e: Date| is_earliest(records, e);
        let l = choose|l: Date| #[trigger] is_latest(records, l);
        reveal(is_earliest);
        reveal(is_latest);
        let ej = choose|j: int| 0 <= j < records.len() && records[j].date_of() == e;
        P::lemma_beginning(e);
        lemma_chain_increasing::<P>(keys);
        assert forall|j: int| 0 <= j < records.len() implies #[trigger] in_some_period::<P>(keys, records[j].date_of()) by {
            let d = records[j].date_of();
            assert(e.wf());
            assert(P::spec_beginning(e) == Some(keys[0]));
            assert(keys[0].on_or_before(e));
            assert(e.on_or_before(d));
            assert(keys[0].on_or_before(d));
            assert(l.before(period_end::<P>(keys.last())));
            assert(d.on_or_before(l));
            lemma_find_period::<P>(keys, d, 0);
        }
        assert forall|j: int, i1: int, i2: int|
            0 <= j < records.len() && 0 <= i1 < keys.len() && 0 <= i2 < keys.len()
                && #[trigger] in_span(keys[i1], period_end::<P>(keys[i1]), records[j].date_of())
                && #[trigger] in_span(keys[i2], period_end::<P>(keys[i2]), records[j].date_of()) implies i1 == i2 by {
            if i1 < i2 {
                assert(period_end::<P>(keys[i1]) == keys[i1 + 1]);
                if i1 + 1 < i2 {
                    assert(keys[i1 + 1].before(keys[i2]));
                }
            } else if i2 < i1 {
                assert(period_end::<P>(keys[i2]) == keys[i2 + 1]);
                if i2 + 1 < i1 {
                    assert(keys[i2 + 1].before(keys[i1]));
                }
            }
        }
    }
}

/// Bucket correctness: each entry of a bucket is a clone of a record whose
/// date lies on or after the bucket's key and before the next period starts.
pub proof fn lemma_bucket_bounds<T: Dated + Clone, P: Period>(
    records: Seq<T>,
    keys: Seq<Date>,
    buckets: Seq<Seq<T>>,
)
    requires
        groups::<T, P>(records, keys, buckets),
    ensures
        forall|i: int, j: int|
            0 <= i < keys.len() && 0 <= j < buckets[i].len() ==> {
                let r = #[trigger] records_in::<T, P>(records, keys[i])[j];
                &&& records.contains(r)
                &&& cloned(r, buckets[i][j])
                &&& keys[i].on_or_before(r.date_of())
                &&& r.date_of().before(period_end::<P>(keys[i]))
            },
{
    assert forall|i: int, j: int| 0 <= i < keys.len() && 0 <= j < buckets[i].len() implies {
        let r = #[trigger] records_in::<T, P>(records, keys[i])[j];
        &&& records.contains(r)
        &&& cloned(r, buckets[i][j])
        &&& keys[i].on_or_before(r.date_of())
        &&& r.date_of().before(period_end::<P>(keys[i]))
    } by {
        let pred = in_period::<T, P>(keys[i]);
        assert(clones_of(buckets[i], records_in::<T, P>(records, keys[i])));
        records.lemma_filter_pred(pred, j);
        let r = records_in::<T, P>(records, keys[i])[j];
        assert(records.filter(pred).contains(r));
        records.lemma_filter_contains_rev(pred, r);
    }
}

/// Number of entries over all buckets.
pub open spec fn total_len<T>(buckets: Seq<Seq<T>>) -> int
    decreases buckets.len(),
{
    if buckets.len() == 0 {
        0
    } else {
        total_len(buckets.drop_last()) + buckets.last().len()
    }
}

/// Number of records in the periods of the first `n` keys, counted period by period.
spec fn count_in_periods<T: Dated, P: Period>(records: Seq<T>, keys: Seq<Date>, n: int) -> int
    decreases n,
{
    if n <= 0 {
        0
    } else {
        count_in_periods::<T, P>(records, keys, n - 1) + records_in::<T, P>(records, keys[n - 1]).len()
    }
}

/// `d` lies in the period of one of the first `n` keys.
spec fn in_first_periods<P: Period>(keys: Seq<Date>, n: int, d: Date) -> bool {
    exists|i: int| 0 <= i < n && #[trigger] in_span(keys[i], period_end::<P>(keys[i]), d)
}

proof fn lemma_count_push<T: Dated, P: Period>(records: Seq<T>, x: T, keys: Seq<Date>, n: int)
    requires
        0 <= n <= keys.len(),
        forall|i1: int, i2: int|
            0 <= i1 < keys.len() && 0 <= i2 < keys.len()
                && #[trigger] in_span(keys[i1], period_end::<P>(keys[i1]), x.date_of())
                && #[trigger] in_span(keys[i2], period_end::<P>(keys[i2]), x.date_of()) ==> i1 == i2,
    ensures
        count_in_periods::<T, P>(records.push(x), keys, n) == count_in_periods::<T, P>(records, keys, n)
            + (if in_first_periods::<P>(keys, n, x.date_of()) { 1int } else { 0 }),
    decreases n,
{
    if n > 0 {
        lemma_count_push::<T, P>(records, x, keys, n - 1);
        records.lemma_filter_push(x, in_period::<T, P>(keys[n - 1]));
        let d = x.date_of();
        if in_span(keys[n - 1], period_end::<P>(keys[n - 1]), d) {
            assert(in_first_periods::<P>(keys, n, d));
            assert(!in_first_periods::<P>(keys, n - 1, d));
        } else {
            assert(in_first_periods::<P>(keys, n, d) == in_first_periods::<P>(keys, n - 1, d));
        }
    }
}

proof fn lemma_count_all<T: Dated, P: Period>(records: Seq<T>, keys: Seq<Date>)
    requires
        forall|j: int| 0 <= j < records.len() ==> #[trigger] in_some_period::<P>(keys, records[j].date_of()),
        forall|j: int, i1: int, i2: int|
            0 <= j < records.len() && 0 <= i1 < keys.len() && 0 <= i2 < keys.len()
                && #[trigger] in_span(keys[i1], period_end::<P>(keys[i1]), records[j].date_of())
                && #[trigger] in_span(keys[i2], period_end::<P>(keys[i2]), records[j].date_of()) ==> i1 == i2,
    ensures
        count_in_periods::<T, P>(records, keys, keys.len() as int) == records.len(),
    decreases records.len(),
{
    if records.len() == 0 {
        lemma_count_empty::<T, P>(records, keys, keys.len() as int);
    } else {
        let front = records.drop_last();
        let last = records.len() - 1;
        let x = records[last];
        assert(records =~= front.push(x));
        assert(forall|j: int| 0 <= j < front.len() ==> front[j] == records[j]);
        lemma_count_all::<T, P>(front, keys);
        assert(in_some_period::<P>(keys, records[last].date_of()));
        assert(in_first_periods::<P>(keys, keys.len() as int, x.date_of()));
        lemma_count_push::<T, P>(front, x, keys, keys.len() as int);
    }
}

proof fn lemma_count_empty<T: Dated, P: Period>(records: Seq<T>, keys: Seq<Date>, n: int)
    requires
        records.len() == 0,
    ensures
        count_in_periods::<T, P>(records, keys, n) == 0,
    decreases n,
{
    if n > 0 {
        lemma_count_empty::<T, P>(records, keys, n - 1);
        records.lemma_filter_len(in_period::<T, P>(keys[n - 1]));
    }
}

proof fn lemma_total_is_count<T: Dated + Clone, P: Period>(
    records: Seq<T>,
    keys: Seq<Date>,
    buckets: Seq<Seq<T>>,
    n: int,
)
    requires
        groups::<T, P>(records, keys, buckets),
        0 <= n <= keys.len(),
    ensures
        total_len(buckets.subrange(0, n)) == count_in_periods::<T, P>(records, keys, n),
    decreases n,
{
    if n > 0 {
        lemma_total_is_count::<T, P>(records, keys, buckets, n - 1);
        assert(buckets.subrange(0, n).drop_last() =~= buckets.subrange(0, n - 1));
        assert(clones_of(buckets[n - 1], records_in::<T, P>(records, keys[n - 1])));
    }
}

/// No record lost or duplicated: the buckets of a grouping hold as many
/// entries in all as there are records.
pub proof fn lemma_total_count<T: Dated + Clone, P: Period>(
    records: Seq<T>,
    keys: Seq<Date>,
    buckets: Seq<Seq<T>>,
)
    requires
        groups::<T, P>(records, keys, buckets),
        forall|j: int| 0 <= j < records.len() ==> (#[trigger] records[j]).date_of().wf(),
    ensures
        total_len(buckets) == records.len(),
{
    lemma_exhaustive_partition::<T, P>(records, keys, buckets);
    lemma_count_all::<T, P>(records, keys);
    lemma_total_is_count::<T, P>(records, keys, buckets, keys.len() as int);
    assert(buckets.subrange(0, keys.len() as int) =~= buckets);
}

/// Lookup projection: a date within the period of a key of a grouping
/// projects to that key, so `get` on any date of a period finds the bucket of
/// that period.
pub proof fn lemma_lookup_projection<T: Dated + Clone, P: Period>(
    records: Seq<T>,
    keys: Seq<Date>,
    buckets: Seq<Seq<T>>,
    i: int,
    d: Date,
)
    requires
        groups::<T, P>(records, keys, buckets),
        forall|j: int| 0 <= j < records.len() ==> (#[trigger] records[j]).date_of().wf(),
        0 <= i < keys.len(),
        d.wf(),
        in_span(keys[i], period_end::<P>(keys[i]), d),
    ensures
        P::spec_beginning(d) == Some(keys[i]),
{
    lemma_has_range(records);
    let e = choose|e: Date| is_earliest(records, e);
    let l = choose|l: Date| #[trigger] is_latest(records, l);
    reveal(is_earliest);
    let ej = choose|j: int| 0 <= j < records.len() && records[j].date_of() == e;
    P::lemma_beginning(e);
    lemma_chain_increasing::<P>(keys);
    if i < keys.len() - 1 {
        assert(P::spec_advance(keys[i]) == Some(keys[i + 1]));
    }
    P::lemma_within(keys[i], d);
}

/// Empty input: the grouping of no records has no periods and no buckets.
pub proof fn lemma_empty_input<T: Dated + Clone, P: Period>(keys: Seq<Date>, buckets: Seq<Seq<T>>)
    requires
        groups::<T, P>(Seq::<T>::empty(), keys, buckets),
    ensures
        keys.len() == 0,
        buckets.len() == 0,
{
}

/// Records grouped by the calendar period they occurred in, in the order of
/// the periods.
pub struct GroupedByPeriod<T, P: Period> {
    keys: Vec<Date>,
    buckets: Vec<Vec<T>>,
    period: PhantomData<P>,
}

impl<T, P: Period> GroupedByPeriod<T, P> {
    /// Start of each period, in order.
    pub closed spec fn key_seq(&self) -> Seq<Date> {
        self.keys@
    }

    /// Records of each period, in the order of `key_seq`.
    pub closed spec fn bucket_seq(&self) -> Seq<Seq<T>> {
        self.buckets@.map_values(|b: Vec<T>| b@)
    }

    /// One bucket per key, and the keys strictly increasing.
    pub closed spec fn wf(&self) -> bool {
        &&& self.keys@.len() == self.buckets@.len()
        &&& forall|i: int, j: int|
            0 <= i < j < self.keys@.len() ==> (#[trigger] self.keys@[i]).before(#[trigger] self.keys@[j])
    }
}

impl<T: Dated + Clone, P: Period> GroupedByPeriod<T, P> {
    /// Clones of the records whose date lies in the period that starts at
    /// `key` and ends before `end`, in their order.
    fn collect_period(records: &[T], dates: &Vec<Date>, key: &Date, end: &Date) -> (r: Vec<T>)
        requires
            dates@.len() == records@.len(),
            forall|j: int| 0 <= j < records@.len() ==> dates@[j] == (#[trigger] records@[j]).date_of(),
            P::spec_advance(*key) == Some(*end),
        ensures
            clones_of(r@, records_in::<T, P>(records@, *key)),
    {
        let ghost pred = in_period::<T, P>(*key);
        let mut bucket: Vec<T> = Vec::new();
        let mut j: usize = 0;
        while j < records.len()
            invariant
                j <= records@.len(),
                dates@.len() == records@.len(),
                forall|k: int| 0 <= k < records@.len() ==> dates@[k] == (#[trigger] records@[k]).date_of(),
                P::spec_advance(*key) == Some(*end),
                pred == in_period::<T, P>(*key),
                clones_of(bucket@, records@.subrange(0, j as int).filter(pred)),
            decreases records@.len() - j,
        {
            let ghost before = records@.subrange(0, j as int);
            assert(records@.subrange(0, j as int + 1) =~= before.push(records@[j as int]));
            proof {
                before.lemma_filter_push(records@[j as int], pred);
            }
            if !dates[j].is_before(key) && dates[j].is_before(end) {
                let c = records[j].clone();
                bucket.push(c);
            }
            j += 1;
        }
        assert(records@.subrange(0, records@.len() as int) =~= records@);
        bucket
    }

    /// The date of each record, in order.
    fn dates_of(records: &[T]) -> (r: Vec<Date>)
        ensures
            r@.len() == records@.len(),
            forall|j: int| 0 <= j < records@.len() ==> r@[j] == (#[trigger] records@[j]).date_of(),
            forall|j: int| 0 <= j < r@.len() ==> (#[trigger] r@[j]).wf(),
    {
        let mut dates: Vec<Date> = Vec::new();
        let mut i: usize = 0;
        while i < records.len()
            invariant
                i <= records@.len(),
                dates@.len() == i,
                forall|j: int| 0 <= j < i ==> dates@[j] == (#[trigger] records@[j]).date_of(),
                forall|j: int| 0 <= j < i ==> (#[trigger] dates@[j]).wf(),
            decreases records@.len() - i,
        {
            let d = records[i].occurred_on();
            dates.push(d);
            i += 1;
        }
        dates
    }

    /// The earliest and the latest of the records' dates.
    fn date_range(records: &[T], dates: &Vec<Date>) -> (r: (Date, Date))
        requires
            records@.len() > 0,
            dates@.len() == records@.len(),
            forall|j: int| 0 <= j < records@.len() ==> dates@[j] == (#[trigger] records@[j]).date_of(),
            forall|j: int| 0 <= j < dates@.len() ==> (#[trigger] dates@[j]).wf(),
        ensures
            is_earliest(records@, r.0),
            is_latest(records@, r.1),
            r.0.wf(),
            r.1.wf(),
    {
        let mut lo = dates[0];
        let mut hi = dates[0];
        let mut i: usize = 1;
        assert(records@[0].date_of() == lo);
        while i < dates.len()
            invariant
                1 <= i <= dates@.len(),
                dates@.len() == records@.len(),
                forall|j: int| 0 <= j < records@.len() ==> dates@[j] == (#[trigger] records@[j]).date_of(),
            forall|j: int| 0 <= j < dates@.len() ==> (#[trigger] dates@[j]).wf(),
                exists|j: int| 0 <= j < records@.len() && records@[j].date_of() == lo,
                exists|j: int| 0 <= j < records@.len() && records@[j].date_of() == hi,
                forall|j: int| 0 <= j < i ==> lo.on_or_before(#[trigger] records@[j].date_of()),
                forall|j: int| 0 <= j < i ==> (#[trigger] records@[j].date_of()).on_or_before(hi),
                lo.wf(),
                hi.wf(),
            decreases dates@.len() - i,
        {
            assert(records@[i as int].date_of() == dates@[i as int]);
            if dates[i].is_before(&lo) {
                lo = dates[i];
            }
            if hi.is_before(&dates[i]) {
                hi = dates[i];
            }
            i += 1;
        }
        proof {
            reveal(is_earliest);
            reveal(is_latest);
        }
        (lo, hi)
    }

    /// Groups `records` by period, from the period of the earliest record to
    /// the period of the latest one; each period gets a bucket, empty where no
    /// record falls in it. `None` where the start of some period on that walk
    /// falls outside the range of `Date`.
    pub fn new(records: &[T]) -> (r: Option<Self>)
        ensures
            r is Some ==> r.unwrap().wf() && groups::<T, P>(
                records@,
                r.unwrap().key_seq(),
                r.unwrap().bucket_seq(),
            ),
            r is None ==> walk_fails::<T, P>(records@),
            records@.len() == 0 ==> r is Some,
    {
        let dates = Self::dates_of(records);
        let mut keys: Vec<Date> = Vec::new();
        let mut buckets: Vec<Vec<T>> = Vec::new();
        if dates.len() == 0 {
            let g = GroupedByPeriod { keys, buckets, period: PhantomData };
            assert(g.bucket_seq() =~= Seq::<Seq<T>>::empty());
            return Some(g);
        }
        let (lo, hi) = Self::date_range(records, &dates);
        let first = match P::beginning(&lo) {
            Some(b) => b,
            None => {
                proof { Self::lemma_range_unique(records@, lo, hi); }
                return None;
            },
        };
        proof {
            P::lemma_beginning(lo);
            reveal(is_earliest);
            reveal(is_latest);
            assert(lo.on_or_before(hi));
        }
        let mut current = first;
        while !hi.is_before(&current)
            invariant
                dates@.len() == records@.len(),
                forall|j: int| 0 <= j < records@.len() ==> dates@[j] == (#[trigger] records@[j]).date_of(),
            forall|j: int| 0 <= j < dates@.len() ==> (#[trigger] dates@[j]).wf(),
                is_earliest(records@, lo),
                is_latest(records@, hi),
                P::spec_beginning(lo) == Some(first),
                first.on_or_before(hi),
                lo.wf(),
                hi.wf(),
                current.wf(),
                keys@.len() == buckets@.len(),
                keys@.len() == 0 ==> current == first,
                keys@.len() > 0 ==> keys@[0] == first && P::spec_advance(keys@.last()) == Some(current),
                is_chain::<P>(keys@),
                forall|i: int| 0 <= i < keys@.len() ==> (#[trigger] keys@[i]).on_or_before(hi),
                forall|i: int| 0 <= i < keys@.len() ==> (#[trigger] keys@[i]).before(current),
                forall|i: int, j: int| 0 <= i < j < keys@.len() ==> (#[trigger] keys@[i]).before(#[trigger] keys@[j]),
                forall|i: int| 0 <= i < keys@.len() ==> clones_of(#[trigger] buckets@[i]@, records_in::<T, P>(records@, keys@[i])),
            decreases (if current.number() <= hi.number() { hi.number() - current.number() + 1 } else { 0 }),
        {
            let next = match P::advance(&current) {
                Some(n) => n,
                None => {
                    proof {
                        let walked = keys@.push(current);
                        assert(walked.last() == current);
                        assert(forall|i: int| 0 <= i < walked.len() ==> (#[trigger] walked[i]).on_or_before(hi));
                        Self::lemma_walk_fails(records@, lo, hi, walked);
                    }
                    return None;
                },
            };
            proof {
                P::lemma_advance(current);
                crate::date::lemma_day_number_order(
                    current.year as int, current.month as int, current.day as int,
                    next.year as int, next.month as int, next.day as int,
                );
                crate::date::lemma_day_number_order(
                    current.year as int, current.month as int, current.day as int,
                    hi.year as int, hi.month as int, hi.day as int,
                );
            }
            assert(current.number() < next.number());
            assert(current.number() <= hi.number());
            let bucket = Self::collect_period(records, &dates, &current, &next);
            keys.push(current);
            buckets.push(bucket);
            current = next;
        }
        let g = GroupedByPeriod { keys, buckets, period: PhantomData };
        proof {
            Self::lemma_range_unique(records@, lo, hi);
            assert(g.key_seq().len() > 0);
            assert(spans_records::<T, P>(records@, g.key_seq()));
        }
        Some(g)
    }


    /// The bucket of the period that holds `date`; `None` where that period
    /// has no bucket, or its start falls out of range.
    pub fn get(&self, date: &Date) -> (r: Option<&Vec<T>>)
        requires
            self.wf(),
            date.wf(),
        ensures
            r is Some <==> P::spec_beginning(*date) is Some && self.key_seq().contains(
                P::spec_beginning(*date).unwrap(),
            ),
            forall|i: int|
                0 <= i < self.key_seq().len() && Some(#[trigger] self.key_seq()[i])
                    == P::spec_beginning(*date) ==> r is Some && r.unwrap()@ == self.bucket_seq()[i],
    {
        let start = match P::beginning(date) {
            Some(b) => b,
            None => return None,
        };
        let mut i: usize = 0;
        while i < self.keys.len()
            invariant
                self.wf(),
                P::spec_beginning(*date) == Some(start),
                i <= self.keys@.len(),
                forall|k: int| 0 <= k < i ==> self.keys@[k] != start,
            decreases self.keys@.len() - i,
        {
            if self.keys[i] == start {
                assert(forall|k: int| 0 <= k < self.keys@.len() && self.keys@[k] == start ==> k == i);
                return Some(&self.buckets[i]);
            }
            i += 1;
        }
        None
    }

    /// Number of periods.
    pub fn len(&self) -> (r: usize)
        requires
            self.wf(),
        ensures
            r == self.key_seq().len(),
    {
        self.keys.len()
    }

    /// Start of each period, in order.
    pub fn keys(&self) -> (r: &Vec<Date>)
        ensures
            r@ == self.key_seq(),
    {
        &self.keys
    }

    /// Each period's start with its bucket, in the order of the periods.
    pub fn entries(&self) -> (r: Vec<(Date, &Vec<T>)>)
        requires
            self.wf(),
        ensures
            r@.len() == self.key_seq().len(),
            forall|i: int| 0 <= i < r@.len() ==> (#[trigger] r@[i]).0 == self.key_seq()[i] && r@[i].1@ == self.bucket_seq()[i],
    {
        let mut out: Vec<(Date, &Vec<T>)> = Vec::new();
        let mut i: usize = 0;
        while i < self.keys.len()
            invariant
                self.wf(),
                i <= self.keys@.len(),
                out@.len() == i,
                forall|k: int| 0 <= k < i ==> (#[trigger] out@[k]).0 == self.key_seq()[k] && out@[k].1@ == self.bucket_seq()[k],
            decreases self.keys@.len() - i,
        {
            out.push((self.keys[i], &self.buckets[i]));
            i += 1;
        }
        out
    }

    /// Each period's start with its bucket, in the order of the periods,
    /// taking the grouping apart.
    pub fn into_entries(self) -> (r: Vec<(Date, Vec<T>)>)
        requires
            self.wf(),
        ensures
            r@.len() == self.key_seq().len(),
            forall|i: int| 0 <= i < r@.len() ==> (#[trigger] r@[i]).0 == self.key_seq()[i] && r@[i].1@ == self.bucket_seq()[i],
    {
        let ghost all = self.buckets@;
        let keys = self.keys;
        let mut buckets = self.buckets;
        let mut out: Vec<(Date, Vec<T>)> = Vec::new();
        let mut i: usize = 0;
        while i < keys.len()
            invariant
                keys@.len() == all.len(),
                i <= keys@.len(),
                buckets@ == all.subrange(i as int, all.len() as int),
                out@.len() == i,
                forall|k: int| 0 <= k < i ==> (#[trigger] out@[k]).0 == keys@[k] && out@[k].1@ == all[k]@,
            decreases keys@.len() - i,
        {
            let b = buckets.remove(0);
            out.push((keys[i], b));
            i += 1;
        }
        out
    }

    proof fn lemma_range_unique(records: Seq<T>, lo: Date, hi: Date)
        requires
            is_earliest(records, lo),
            is_latest(records, hi),
        ensures
            forall|e: Date| is_earliest(records, e) ==> e == lo,
            forall|l: Date| #[trigger] is_latest(records, l) ==> l == hi,
    {
        reveal(is_earliest);
        reveal(is_latest);
    }

    proof fn lemma_walk_fails(records: Seq<T>, lo: Date, hi: Date, walked: Seq<Date>)
        requires
            is_earliest(records, lo),
            is_latest(records, hi),
            walked.len() > 0,
            P::spec_beginning(lo) == Some(walked[0]),
            is_chain::<P>(walked),
            forall|i: int| 0 <= i < walked.len() ==> (#[trigger] walked[i]).on_or_before(hi),
            P::spec_advance(walked.last()) is None,
        ensures
            walk_fails::<T, P>(records),
    {
        Self::lemma_range_unique(records, lo, hi);
        reveal(is_earliest);
        assert forall|e: Date, l: Date| is_earliest(records, e) && is_latest(records, l)
            implies {
                ||| P::spec_beginning(e) is None
                ||| exists|keys: Seq<Date>| {
                    &&& keys.len() > 0
                    &&& P::spec_beginning(e) == Some(keys[0])
                    &&& is_chain::<P>(keys)
                    &&& forall|i: int| 0 <= i < keys.len() ==> (#[trigger] keys[i]).on_or_before(l)
                    &&& P::spec_advance(keys.last()) is None
                }
            } by {
            assert(e == lo && l == hi);
        }
    }

}

} // verus!
