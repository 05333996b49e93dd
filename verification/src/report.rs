//! The chunk-bucketed summary of a tracker's log.

use vstd::prelude::*;
use vstd::arithmetic::div_mod::{
    lemma_div_multiples_vanish, lemma_fundamental_div_mod, lemma_fundamental_div_mod_converse,
    lemma_mod_multiples_basic,
};
use crate::outcome::{error_kind_text, kind_text, same_kind};
use crate::tracker::{Tracker, TrackerEntry, TrackerView};
use std::collections::BTreeMap;
use std::io::ErrorKind;
use std::ops::Range;

verus! {

/// The chunk size of a report that does not choose its own.
pub const DEFAULT_CHUNK: u64 = 64;

/// The start of the first chunk that a range starting at `start` overlaps:
/// `start` rounded down to a multiple of `chunk`.
pub open spec fn bucket_start(chunk: int, start: int) -> int {
    chunk * (start / chunk)
}

/// The end of the last chunk that a range ending at `end` overlaps: `end`
/// rounded up to a multiple of `chunk`.
pub open spec fn bucket_end(chunk: int, end: int) -> int {
    chunk * ((end + chunk - 1) / chunk)
}

/// Whether the range `[start, end)` is recorded under the chunk that starts
/// at `bucket`.
pub open spec fn touches(chunk: int, start: int, end: int, bucket: int) -> bool {
    &&& bucket % chunk == 0
    &&& bucket_start(chunk, start) <= bucket < bucket_end(chunk, end)
}

/// Whether a count restricted to `only` (any range, if `None`) includes the
/// range `[start, end)`.
pub open spec fn selects(only: Option<(u64, u64)>, start: u64, end: u64) -> bool {
    match only {
        Some(range) => range == (start, end),
        None => true,
    }
}

/// Whether a log entry is a successful range that is recorded under
/// `bucket` and that `only` selects.
pub open spec fn entry_hits(
    entry: TrackerEntry,
    chunk: u64,
    bucket: u64,
    only: Option<(u64, u64)>,
) -> bool {
    match entry {
        TrackerEntry::Entry(range) => touches(
            chunk as int,
            range.start as int,
            range.end as int,
            bucket as int,
        ) && selects(only, range.start, range.end),
        TrackerEntry::Error(_) => false,
    }
}

/// How many entries of the log are recorded under `bucket`, counting only
/// the range `only` if one is given.
pub open spec fn hits(log: Seq<TrackerEntry>, chunk: u64, bucket: u64, only: Option<(u64, u64)>) -> nat
    decreases log.len(),
{
    if log.len() == 0 {
        0
    } else {
        hits(log.drop_last(), chunk, bucket, only) + if entry_hits(log.last(), chunk, bucket, only) {
            1nat
        } else {
            0nat
        }
    }
}

/// How many entries of the log are failures of the given kind.
pub open spec fn failures(log: Seq<TrackerEntry>, kind: ErrorKind) -> nat
    decreases log.len(),
{
    if log.len() == 0 {
        0
    } else {
        failures(log.drop_last(), kind) + if log.last() == TrackerEntry::Error(kind) {
            1nat
        } else {
            0nat
        }
    }
}

/// How often one range was recorded under one bucket.
#[derive(Clone, Copy, Debug)]
pub struct RangeCount {
    pub bucket: u64,
    pub start: u64,
    pub end: u64,
    pub count: u64,
}

/// How often one kind of error occurred.
#[derive(Clone, Copy, Debug)]
pub struct ErrorCount {
    pub kind: ErrorKind,
    pub count: u64,
}

/// Whether two counters stand for the same range under the same bucket.
pub open spec fn same_slot(a: RangeCount, b: RangeCount) -> bool {
    a.bucket == b.bucket && a.start == b.start && a.end == b.end
}

/// Whether a counter belongs to `bucket` and to a range that `only` selects.
pub open spec fn item_counts(item: RangeCount, bucket: u64, only: Option<(u64, u64)>) -> bool {
    item.bucket == bucket && selects(only, item.start, item.end)
}

/// The sum of the counters of `bucket`, restricted to the range `only` if
/// one is given.
pub open spec fn tally(items: Seq<RangeCount>, bucket: u64, only: Option<(u64, u64)>) -> nat
    decreases items.len(),
{
    if items.len() == 0 {
        0
    } else {
        tally(items.drop_last(), bucket, only) + if item_counts(items.last(), bucket, only) {
            items.last().count as nat
        } else {
            0nat
        }
    }
}

/// The sum of the counters of one error kind.
pub open spec fn error_tally(items: Seq<ErrorCount>, kind: ErrorKind) -> nat
    decreases items.len(),
{
    if items.len() == 0 {
        0
    } else {
        error_tally(items.drop_last(), kind) + if items.last().kind == kind {
            items.last().count as nat
        } else {
            0nat
        }
    }
}

/// No two counters share a bucket and a range, and none is zero.
pub open spec fn ranges_well_formed(items: Seq<RangeCount>) -> bool {
    &&& forall|i: int, j: int| 0 <= i < j < items.len() ==> !same_slot(items[i], items[j])
    &&& forall|i: int| 0 <= i < items.len() ==> items[i].count > 0
}

/// No two counters share an error kind, and none is zero.
pub open spec fn errors_well_formed(items: Seq<ErrorCount>) -> bool {
    &&& forall|i: int, j: int| 0 <= i < j < items.len() ==> items[i].kind != items[j].kind
    &&& forall|i: int| 0 <= i < items.len() ==> items[i].count > 0
}

/// Whether `totals` holds, for exactly the buckets that have a counter, the
/// sum of the bucket's counters.
pub open spec fn totals_of(items: Seq<RangeCount>, totals: Map<u64, u64>) -> bool {
    forall|bucket: u64|
        #![trigger totals.contains_key(bucket)]
        #![trigger tally(items, bucket, None)]
        (totals.contains_key(bucket) <==> tally(items, bucket, None) > 0) && (totals.contains_key(
            bucket,
        ) ==> totals[bucket] == tally(items, bucket, None))
}

/// Whether `labelled` holds, counter by counter, the text of the counter's
/// kind and its count.
pub open spec fn labelled_as(items: Seq<ErrorCount>, labelled: Seq<(String, u64)>) -> bool {
    &&& labelled.len() == items.len()
    &&& forall|i: int|
        0 <= i < items.len() ==> (#[trigger] labelled[i]).0@ == error_kind_text(items[i].kind)
            && labelled[i].1 == items[i].count
}

/// A counter with one more occurrence.
pub open spec fn bumped(item: RangeCount) -> RangeCount {
    RangeCount { count: (item.count + 1) as u64, ..item }
}

/// An error counter with one more occurrence.
pub open spec fn error_bumped(item: ErrorCount) -> ErrorCount {
    ErrorCount { count: (item.count + 1) as u64, ..item }
}

proof fn lemma_tally_push(items: Seq<RangeCount>, item: RangeCount, bucket: u64, only: Option<(u64, u64)>)
    ensures
        tally(items.push(item), bucket, only) == tally(items, bucket, only) + if item_counts(
            item,
            bucket,
            only,
        ) {
            item.count as nat
        } else {
            0nat
        },
{
    assert(items.push(item).drop_last() =~= items);
}

proof fn lemma_tally_bump(items: Seq<RangeCount>, at: int, bucket: u64, only: Option<(u64, u64)>)
    requires
        0 <= at < items.len(),
        items[at].count < u64::MAX,
    ensures
        tally(items.update(at, bumped(items[at])), bucket, only) == tally(items, bucket, only)
            + if item_counts(items[at], bucket, only) {
            1nat
        } else {
            0nat
        },
    decreases items.len(),
{
    let after = items.update(at, bumped(items[at]));
    if at == items.len() - 1 {
        assert(after.drop_last() =~= items.drop_last());
    } else {
        lemma_tally_bump(items.drop_last(), at, bucket, only);
        assert(after.drop_last() =~= items.drop_last().update(at, bumped(items[at])));
    }
}

proof fn lemma_tally_covers(items: Seq<RangeCount>, at: int, bucket: u64, only: Option<(u64, u64)>)
    requires
        0 <= at < items.len(),
        item_counts(items[at], bucket, only),
    ensures
        items[at].count <= tally(items, bucket, only),
    decreases items.len(),
{
    if at < items.len() - 1 {
        lemma_tally_covers(items.drop_last(), at, bucket, only);
    }
}

proof fn lemma_tally_prefix(items: Seq<RangeCount>, n: int, bucket: u64, only: Option<(u64, u64)>)
    requires
        0 <= n <= items.len(),
    ensures
        tally(items.take(n), bucket, only) <= tally(items, bucket, only),
    decreases items.len(),
{
    if n == items.len() {
        assert(items.take(n) =~= items);
    } else {
        lemma_tally_prefix(items.drop_last(), n, bucket, only);
        assert(items.drop_last().take(n) =~= items.take(n));
    }
}

proof fn lemma_tally_step(items: Seq<RangeCount>, n: int, bucket: u64, only: Option<(u64, u64)>)
    requires
        0 <= n < items.len(),
    ensures
        tally(items.take(n + 1), bucket, only) == tally(items.take(n), bucket, only)
            + if item_counts(items[n], bucket, only) {
            items[n].count as nat
        } else {
            0nat
        },
{
    assert(items.take(n + 1).drop_last() =~= items.take(n));
}

proof fn lemma_error_tally_push(items: Seq<ErrorCount>, item: ErrorCount, kind: ErrorKind)
    ensures
        error_tally(items.push(item), kind) == error_tally(items, kind) + if item.kind == kind {
            item.count as nat
        } else {
            0nat
        },
{
    assert(items.push(item).drop_last() =~= items);
}

proof fn lemma_error_tally_bump(items: Seq<ErrorCount>, at: int, kind: ErrorKind)
    requires
        0 <= at < items.len(),
        items[at].count < u64::MAX,
    ensures
        error_tally(items.update(at, error_bumped(items[at])), kind) == error_tally(items, kind)
            + if items[at].kind == kind {
            1nat
        } else {
            0nat
        },
    decreases items.len(),
{
    let after = items.update(at, error_bumped(items[at]));
    if at == items.len() - 1 {
        assert(after.drop_last() =~= items.drop_last());
    } else {
        lemma_error_tally_bump(items.drop_last(), at, kind);
        assert(after.drop_last() =~= items.drop_last().update(at, error_bumped(items[at])));
    }
}

proof fn lemma_error_tally_covers(items: Seq<ErrorCount>, at: int)
    requires
        0 <= at < items.len(),
    ensures
        items[at].count <= error_tally(items, items[at].kind),
    decreases items.len(),
{
    if at < items.len() - 1 {
        lemma_error_tally_covers(items.drop_last(), at);
    }
}

/// No bucket is hit more often than the log is long.
pub proof fn lemma_hits_bounded(log: Seq<TrackerEntry>, chunk: u64, bucket: u64, only: Option<(u64, u64)>)
    ensures
        hits(log, chunk, bucket, only) <= log.len(),
    decreases log.len(),
{
    if log.len() > 0 {
        lemma_hits_bounded(log.drop_last(), chunk, bucket, only);
    }
}

/// No kind of error occurs more often than the log is long.
pub proof fn lemma_failures_bounded(log: Seq<TrackerEntry>, kind: ErrorKind)
    ensures
        failures(log, kind) <= log.len(),
    decreases log.len(),
{
    if log.len() > 0 {
        lemma_failures_bounded(log.drop_last(), kind);
    }
}

/// A range is recorded under a bucket exactly when the bucket starts a
/// chunk whose index lies between the index of the range's first chunk and
/// the number of chunks that end at or before the range's rounded-up end.
pub proof fn lemma_touches_by_index(chunk: int, start: int, end: int, bucket: int)
    requires
        chunk > 0,
        start >= 0,
        end >= 0,
        bucket >= 0,
    ensures
        touches(chunk, start, end, bucket) <==> (bucket % chunk == 0 && start / chunk <= bucket
            / chunk < (end + chunk - 1) / chunk),
{
    lemma_fundamental_div_mod(bucket, chunk);
    let a = start / chunk;
    let b = bucket / chunk;
    let c = (end + chunk - 1) / chunk;
    if bucket % chunk == 0 {
        assert(bucket == chunk * b);
        assert((chunk * a <= chunk * b) <==> a <= b) by (nonlinear_arith)
            requires
                chunk > 0,
        ;
        assert((chunk * b < chunk * c) <==> b < c) by (nonlinear_arith)
            requires
                chunk > 0,
        ;
    }
}

/// Rounding `end` up to whole chunks adds one chunk exactly when `end` is
/// not itself a multiple of the chunk size.
pub proof fn lemma_chunks_up_to(chunk: int, end: int)
    requires
        chunk > 0,
        end >= 0,
    ensures
        (end + chunk - 1) / chunk == end / chunk + if end % chunk == 0 {
            0int
        } else {
            1int
        },
        chunk * (end / chunk) <= end,
{
    lemma_fundamental_div_mod(end, chunk);
    let q = end / chunk;
    let r = end % chunk;
    assert(q * chunk == chunk * q) by (nonlinear_arith);
    if r == 0 {
        lemma_fundamental_div_mod_converse(end + chunk - 1, chunk, q, chunk - 1);
    } else {
        assert((q + 1) * chunk == chunk * q + chunk) by (nonlinear_arith);
        lemma_fundamental_div_mod_converse(end + chunk - 1, chunk, q + 1, r - 1);
    }
}

/// The serialisable shape of a report's position and size.
#[derive(Debug)]
pub struct NativeReportMetadata {
    /// The cursor when the report was built.
    pub current_position: u64,
    /// The inferred stream size when the report was built.
    pub estimated_size: Option<u64>,
}

/// The serialisable shape of a report.
#[derive(Debug)]
pub struct NativeReport {
    /// The position and size.
    pub metadata: NativeReportMetadata,
    /// For each touched bucket, how many recorded ranges touch it.
    pub io_operations: BTreeMap<u64, u64>,
    /// For each kind of error that occurred, its text and how often it
    /// occurred.
    pub io_errors: Vec<(String, u64)>,
}

/// A summary of a tracker's log, frozen when it was built. Successful
/// ranges are counted under every chunk of `CHUNK` bytes that they overlap.
pub struct Report<const CHUNK: u64> {
    ops: Vec<RangeCount>,
    errs: Vec<ErrorCount>,
    meta: (u64, Option<u64>),
}

impl<const CHUNK: u64> Report<CHUNK> {
    #[verifier::type_invariant]
    spec fn inv(self) -> bool {
        &&& ranges_well_formed(self.ops@)
        &&& errors_well_formed(self.errs@)
        &&& forall|bucket: u64| #[trigger] tally(self.ops@, bucket, None) <= u64::MAX
    }

    /// The counters of successful ranges, one for each bucket and range.
    pub closed spec fn ops(&self) -> Seq<RangeCount> {
        self.ops@
    }

    /// The counters of failures, one for each kind.
    pub closed spec fn errs(&self) -> Seq<ErrorCount> {
        self.errs@
    }

    /// The cursor and the inferred size at the time the report was built.
    pub closed spec fn meta(&self) -> (u64, Option<u64>) {
        self.meta
    }

    /// How often the range `[start, end)` was recorded under `bucket`.
    pub open spec fn range_count(&self, bucket: u64, start: u64, end: u64) -> nat {
        tally(self.ops(), bucket, Some((start, end)))
    }

    /// How many recorded ranges touch `bucket`.
    pub open spec fn bucket_total(&self, bucket: u64) -> nat {
        tally(self.ops(), bucket, None)
    }

    /// How often an error of the given kind was recorded.
    pub open spec fn error_count(&self, kind: ErrorKind) -> nat {
        error_tally(self.errs(), kind)
    }

    /// The counters are distinct and positive, and every bucket's total
    /// fits in `u64`.
    pub open spec fn wf(&self) -> bool {
        &&& ranges_well_formed(self.ops())
        &&& errors_well_formed(self.errs())
        &&& forall|bucket: u64| #[trigger] tally(self.ops(), bucket, None) <= u64::MAX
    }

    /// The report counts exactly what the tracker's log holds: each range
    /// under each bucket that it touches, each error under its kind, and
    /// the tracker's cursor and size.
    pub open spec fn summarises(&self, tracker: TrackerView) -> bool {
        &&& self.wf()
        &&& forall|bucket: u64, only: Option<(u64, u64)>| #[trigger]
            tally(self.ops(), bucket, only) == hits(tracker.log, CHUNK, bucket, only)
        &&& forall|kind: ErrorKind| #[trigger]
            error_tally(self.errs(), kind) == failures(tracker.log, kind)
        &&& self.meta() == (tracker.cursor, tracker.known_size)
    }

    /// Builds the report of a tracker's present state.
    pub fn create(tracker: &Tracker) -> (report: Self)
        requires
            CHUNK > 0,
        ensures
            report.summarises(tracker@),
    {
        let log = tracker.entries();
        let mut ops: Vec<RangeCount> = Vec::new();
        let mut errs: Vec<ErrorCount> = Vec::new();
        let mut i: usize = 0;
        while i < log.len()
            invariant
                CHUNK > 0,
                i <= log.len(),
                ranges_well_formed(ops@),
                errors_well_formed(errs@),
                forall|bucket: u64, only: Option<(u64, u64)>| #[trigger]
                    tally(ops@, bucket, only) == hits(log@.take(i as int), CHUNK, bucket, only),
                forall|kind: ErrorKind| #[trigger]
                    error_tally(errs@, kind) == failures(log@.take(i as int), kind),
            decreases log.len() - i,
        {
            proof {
                let seen = log@.take(i as int);
                assert(log@.take(i + 1).drop_last() =~= seen);
                assert forall|bucket: u64, only: Option<(u64, u64)>| #[trigger]
                    tally(ops@, bucket, only) < u64::MAX by {
                    lemma_hits_bounded(seen, CHUNK, bucket, only);
                }
                assert forall|kind: ErrorKind| #[trigger] error_tally(errs@, kind) < u64::MAX by {
                    lemma_failures_bounded(seen, kind);
                }
            }
            match &log[i] {
                TrackerEntry::Error(kind) => Self::record_err(&mut errs, *kind),
                TrackerEntry::Entry(range) => Self::record_ops(&mut ops, range),
            }
            i += 1;
        }
        proof {
            assert(log@.take(i as int) =~= log@);
            assert forall|bucket: u64| #[trigger] tally(ops@, bucket, None) <= u64::MAX by {
                lemma_hits_bounded(log@, CHUNK, bucket, None);
            }
        }
        Report { ops, errs, meta: (tracker.pos(), tracker.sz()) }
    }

    /// Whether `out` is the serialisable shape of this report: its position
    /// and size, for each bucket that any range touches the number of
    /// recorded ranges that touch it, and for each error counter the text of
    /// its kind with its count, in the counters' order.
    pub open spec fn serialised_as(&self, out: NativeReport) -> bool {
        &&& out.metadata.current_position == self.meta().0
        &&& out.metadata.estimated_size == self.meta().1
        &&& totals_of(self.ops(), out.io_operations@)
        &&& labelled_as(self.errs(), out.io_errors@)
    }

    /// Dumps the report into its serialisable shape.
    pub fn ser(&self) -> (out: NativeReport)
        ensures
            self.serialised_as(out),
    {
        proof {
            use_type_invariant(self);
        }
        NativeReport {
            metadata: NativeReportMetadata {
                current_position: self.meta.0,
                estimated_size: self.meta.1,
            },
            io_operations: Self::collect_ops(&self.ops),
            io_errors: Self::collect_errs(&self.errs),
        }
    }

    /// Adds up, for each bucket, the counts of all ranges recorded under it.
    fn collect_ops(ops: &Vec<RangeCount>) -> (totals: BTreeMap<u64, u64>)
        requires
            ranges_well_formed(ops@),
            forall|bucket: u64| #[trigger] tally(ops@, bucket, None) <= u64::MAX,
        ensures
            totals_of(ops@, totals@),
    {
        let mut totals: BTreeMap<u64, u64> = BTreeMap::new();
        let mut j: usize = 0;
        while j < ops.len()
            invariant
                j <= ops.len(),
                ranges_well_formed(ops@),
                forall|bucket: u64| #[trigger] tally(ops@, bucket, None) <= u64::MAX,
                totals_of(ops@.take(j as int), totals@),
            decreases ops.len() - j,
        {
            let item = ops[j];
            let ghost before = totals@;
            let sum: u64 = match totals.get(&item.bucket) {
                Some(sum) => *sum,
                None => 0,
            };
            proof {
                lemma_tally_step(ops@, j as int, item.bucket, None);
                lemma_tally_prefix(ops@, j + 1, item.bucket, None);
                assert(sum == tally(ops@.take(j as int), item.bucket, None));
            }
            totals.insert(item.bucket, sum + item.count);
            proof {
                assert forall|bucket: u64|
                    #![trigger totals@.contains_key(bucket)]
                    #![trigger tally(ops@.take(j + 1), bucket, None)]
                    (totals@.contains_key(bucket) <==> tally(ops@.take(j + 1), bucket, None) > 0)
                        && (totals@.contains_key(bucket) ==> totals@[bucket] == tally(
                        ops@.take(j + 1),
                        bucket,
                        None,
                    )) by {
                    lemma_tally_step(ops@, j as int, bucket, None);
                    assert(before.contains_key(bucket) <==> tally(
                        ops@.take(j as int),
                        bucket,
                        None,
                    ) > 0);
                }
            }
            j += 1;
        }
        proof {
            assert(ops@.take(j as int) =~= ops@);
        }
        totals
    }

    /// Gives each error counter the text of its kind.
    fn collect_errs(errs: &Vec<ErrorCount>) -> (labelled: Vec<(String, u64)>)
        ensures
            labelled_as(errs@, labelled@),
    {
        let mut labelled: Vec<(String, u64)> = Vec::new();
        let mut j: usize = 0;
        while j < errs.len()
            invariant
                j <= errs.len(),
                labelled@.len() == j,
                forall|i: int|
                    0 <= i < j ==> (#[trigger] labelled@[i]).0@ == error_kind_text(errs@[i].kind)
                        && labelled@[i].1 == errs@[i].count,
            decreases errs.len() - j,
        {
            let item = errs[j];
            labelled.push((kind_text(item.kind), item.count));
            j += 1;
        }
        labelled
    }

    /// Counts one more occurrence of `[start, end)` under `bucket`.
    fn bump(ops: &mut Vec<RangeCount>, bucket: u64, start: u64, end: u64)
        requires
            ranges_well_formed(old(ops)@),
            tally(old(ops)@, bucket, Some((start, end))) < u64::MAX,
        ensures
            ranges_well_formed(final(ops)@),
            forall|b: u64, only: Option<(u64, u64)>| #[trigger]
                tally(final(ops)@, b, only) == tally(old(ops)@, b, only) + if b == bucket
                    && selects(only, start, end) {
                    1nat
                } else {
                    0nat
                },
    {
        let slot = RangeCount { bucket, start, end, count: 1 };
        let mut j: usize = 0;
        while j < ops.len()
            invariant
                j <= ops.len(),
                ops@ == old(ops)@,
                ranges_well_formed(ops@),
                tally(ops@, bucket, Some((start, end))) < u64::MAX,
                slot == (RangeCount { bucket, start, end, count: 1 }),
                forall|k: int| 0 <= k < j ==> !same_slot(ops@[k], slot),
            decreases ops.len() - j,
        {
            let item = ops[j];
            if item.bucket == bucket && item.start == start && item.end == end {
                proof {
                    lemma_tally_covers(ops@, j as int, bucket, Some((start, end)));
                    assert forall|b: u64, only: Option<(u64, u64)>| #[trigger]
                        tally(ops@.update(j as int, bumped(item)), b, only) == tally(ops@, b, only)
                            + if b == bucket && selects(only, start, end) {
                            1nat
                        } else {
                            0nat
                        } by {
                        lemma_tally_bump(ops@, j as int, b, only);
                    }
                }
                ops.set(j, RangeCount { count: item.count + 1, ..item });
                proof {
                    let before = old(ops)@;
                    assert(ops@ =~= before.update(j as int, bumped(item)));
                    assert forall|a: int, b: int| 0 <= a < b < ops@.len() implies !same_slot(
                        ops@[a],
                        ops@[b],
                    ) by {
                        assert(!same_slot(before[a], before[b]));
                    }
                }
                return ;
            }
            j += 1;
        }
        proof {
            assert forall|b: u64, only: Option<(u64, u64)>| #[trigger]
                tally(ops@.push(slot), b, only) == tally(ops@, b, only) + if b == bucket
                    && selects(only, start, end) {
                    1nat
                } else {
                    0nat
                } by {
                lemma_tally_push(ops@, slot, b, only);
            }
        }
        ops.push(slot);
    }

    /// Counts one more failure of the given kind.
    fn record_err(errs: &mut Vec<ErrorCount>, kind: ErrorKind)
        requires
            errors_well_formed(old(errs)@),
            error_tally(old(errs)@, kind) < u64::MAX,
        ensures
            errors_well_formed(final(errs)@),
            forall|k: ErrorKind| #[trigger]
                error_tally(final(errs)@, k) == error_tally(old(errs)@, k) + if k == kind {
                    1nat
                } else {
                    0nat
                },
    {
        let mut j: usize = 0;
        while j < errs.len()
            invariant
                j <= errs.len(),
                errs@ == old(errs)@,
                errors_well_formed(errs@),
                error_tally(errs@, kind) < u64::MAX,
                forall|k: int| 0 <= k < j ==> errs@[k].kind != kind,
            decreases errs.len() - j,
        {
            let item = errs[j];
            if same_kind(item.kind, kind) {
                proof {
                    lemma_error_tally_covers(errs@, j as int);
                    assert forall|k: ErrorKind| #[trigger]
                        error_tally(errs@.update(j as int, error_bumped(item)), k) == error_tally(
                            errs@,
                            k,
                        ) + if k == kind {
                            1nat
                        } else {
                            0nat
                        } by {
                        lemma_error_tally_bump(errs@, j as int, k);
                    }
                }
                errs.set(j, ErrorCount { count: item.count + 1, ..item });
                assert(errs@ =~= old(errs)@.update(j as int, error_bumped(item)));
                return ;
            }
            j += 1;
        }
        let fresh = ErrorCount { kind, count: 1 };
        proof {
            assert forall|k: ErrorKind| #[trigger]
                error_tally(errs@.push(fresh), k) == error_tally(errs@, k) + if k == kind {
                    1nat
                } else {
                    0nat
                } by {
                lemma_error_tally_push(errs@, fresh, k);
            }
        }
        errs.push(fresh);
    }

    /// Counts one successful range under every bucket that it touches.
    fn record_ops(ops: &mut Vec<RangeCount>, range: &Range<u64>)
        requires
            CHUNK > 0,
            ranges_well_formed(old(ops)@),
            forall|b: u64, only: Option<(u64, u64)>| #[trigger]
                tally(old(ops)@, b, only) < u64::MAX,
        ensures
            ranges_well_formed(final(ops)@),
            forall|b: u64, only: Option<(u64, u64)>| #[trigger]
                tally(final(ops)@, b, only) == tally(old(ops)@, b, only) + if entry_hits(
                    TrackerEntry::Entry(*range),
                    CHUNK,
                    b,
                    only,
                ) {
                    1nat
                } else {
                    0nat
                },
    {
        let start: u64 = range.start;
        let end: u64 = range.end;
        let first: u64 = start / CHUNK;
        proof {
            lemma_chunks_up_to(CHUNK as int, end as int);
            if end % CHUNK != 0 {
                assert(end / CHUNK < u64::MAX) by (nonlinear_arith)
                    requires
                        CHUNK * (end / CHUNK) <= end,
                        end <= u64::MAX,
                        CHUNK > 1,
                        end / CHUNK >= 0,
                ;
            }
        }
        let stop: u64 = if end % CHUNK == 0 {
            end / CHUNK
        } else {
            end / CHUNK + 1
        };
        let mut k: u64 = first;
        while k < stop
            invariant
                CHUNK > 0,
                first <= k,
                first == start / CHUNK,
                stop == (end + CHUNK - 1) / (CHUNK as int),
                start == range.start,
                end == range.end,
                ranges_well_formed(ops@),
                forall|b: u64, only: Option<(u64, u64)>| #[trigger]
                    tally(old(ops)@, b, only) < u64::MAX,
                forall|b: u64, only: Option<(u64, u64)>| #[trigger]
                    tally(ops@, b, only) == tally(old(ops)@, b, only) + if b % CHUNK == 0 && first
                        <= b / CHUNK < k && b / CHUNK < stop && selects(only, start, end) {
                        1nat
                    } else {
                        0nat
                    },
            decreases stop - k,
        {
            proof {
                lemma_fundamental_div_mod(end + CHUNK - 1, CHUNK as int);
                assert(k * CHUNK <= end) by (nonlinear_arith)
                    requires
                        k + 1 <= stop,
                        CHUNK * stop <= end + CHUNK - 1,
                        CHUNK > 0,
                ;
                lemma_div_multiples_vanish(k as int, CHUNK as int);
                lemma_mod_multiples_basic(k as int, CHUNK as int);
                assert(k * CHUNK == CHUNK * k) by (nonlinear_arith);
            }
            let bucket: u64 = k * CHUNK;
            let ghost before = ops@;
            Self::bump(ops, bucket, start, end);
            proof {
                assert forall|b: u64, only: Option<(u64, u64)>| #[trigger]
                    tally(ops@, b, only) == tally(old(ops)@, b, only) + if b % CHUNK == 0 && first
                        <= b / CHUNK < k + 1 && b / CHUNK < stop && selects(only, start, end) {
                        1nat
                    } else {
                        0nat
                    } by {
                    assert(tally(ops@, b, only) == tally(before, b, only) + if b == bucket
                        && selects(only, start, end) {
                        1nat
                    } else {
                        0nat
                    });
                    lemma_fundamental_div_mod(b as int, CHUNK as int);
                    assert((b % CHUNK == 0 && b / CHUNK == k) <==> b == bucket);
                }
            }
            k += 1;
        }
        proof {
            assert forall|b: u64, only: Option<(u64, u64)>| #[trigger]
                tally(ops@, b, only) == tally(old(ops)@, b, only) + if entry_hits(
                    TrackerEntry::Entry(*range),
                    CHUNK,
                    b,
                    only,
                ) {
                    1nat
                } else {
                    0nat
                } by {
                lemma_touches_by_index(CHUNK as int, start as int, end as int, b as int);
            }
        }
    }
}

proof fn lemma_error_tally_single(items: Seq<ErrorCount>, at: int)
    requires
        0 <= at < items.len(),
        errors_well_formed(items),
    ensures
        error_tally(items, items[at].kind) == items[at].count,
    decreases items.len(),
{
    let kind = items[at].kind;
    if at < items.len() - 1 {
        lemma_error_tally_single(items.drop_last(), at);
    } else {
        lemma_error_tally_absent(items.drop_last(), kind);
    }
}

proof fn lemma_error_tally_absent(items: Seq<ErrorCount>, kind: ErrorKind)
    requires
        forall|i: int| 0 <= i < items.len() ==> items[i].kind != kind,
    ensures
        error_tally(items, kind) == 0,
    decreases items.len(),
{
    if items.len() > 0 {
        lemma_error_tally_absent(items.drop_last(), kind);
    }
}

proof fn lemma_error_tally_witness(items: Seq<ErrorCount>, kind: ErrorKind) -> (at: int)
    requires
        error_tally(items, kind) > 0,
    ensures
        0 <= at < items.len(),
        items[at].kind == kind,
    decreases items.len(),
{
    if items.last().kind == kind {
        items.len() - 1
    } else {
        lemma_error_tally_witness(items.drop_last(), kind)
    }
}

proof fn lemma_tally_absent(items: Seq<RangeCount>, bucket: u64, only: Option<(u64, u64)>)
    requires
        forall|i: int| 0 <= i < items.len() ==> !item_counts(items[i], bucket, only),
    ensures
        tally(items, bucket, only) == 0,
    decreases items.len(),
{
    if items.len() > 0 {
        lemma_tally_absent(items.drop_last(), bucket, only);
    }
}

proof fn lemma_tally_single(items: Seq<RangeCount>, at: int)
    requires
        0 <= at < items.len(),
        ranges_well_formed(items),
    ensures
        tally(items, items[at].bucket, Some((items[at].start, items[at].end))) == items[at].count,
    decreases items.len(),
{
    let item = items[at];
    if at < items.len() - 1 {
        assert(!same_slot(item, items.last()));
        lemma_tally_single(items.drop_last(), at);
    } else {
        assert forall|i: int| 0 <= i < items.drop_last().len() implies !item_counts(
            items.drop_last()[i],
            item.bucket,
            Some((item.start, item.end)),
        ) by {
            assert(!same_slot(items[i], items[at]));
        }
        lemma_tally_absent(items.drop_last(), item.bucket, Some((item.start, item.end)));
    }
}

proof fn lemma_tally_witness(items: Seq<RangeCount>, bucket: u64, only: Option<(u64, u64)>) -> (at: int)
    requires
        tally(items, bucket, only) > 0,
    ensures
        0 <= at < items.len(),
        item_counts(items[at], bucket, only),
    decreases items.len(),
{
    if item_counts(items.last(), bucket, only) {
        items.len() - 1
    } else {
        lemma_tally_witness(items.drop_last(), bucket, only)
    }
}

/// Whether some counter stands for the range `[start, end)` under `bucket`.
pub open spec fn counts_range(items: Seq<RangeCount>, bucket: u64, start: u64, end: u64) -> bool {
    exists|i: int|
        0 <= i < items.len() && item_counts(#[trigger] items[i], bucket, Some((start, end)))
}

/// Whether some counter stands for the given kind of error.
pub open spec fn counts_kind(items: Seq<ErrorCount>, kind: ErrorKind) -> bool {
    exists|i: int| 0 <= i < items.len() && (#[trigger] items[i]).kind == kind
}

/// The counters of a report are exactly what its tracker's log holds: each
/// counter's count is the number of matching log entries, and there is a
/// counter for a range under a bucket, or for a kind of error, exactly when
/// the log holds such an entry.
pub proof fn lemma_counters_match_log<const CHUNK: u64>(state: TrackerView, report: Report<CHUNK>)
    requires
        report.summarises(state),
    ensures
        forall|i: int|
            0 <= i < report.ops().len() ==> (#[trigger] report.ops()[i]).count == hits(
                state.log,
                CHUNK,
                report.ops()[i].bucket,
                Some((report.ops()[i].start, report.ops()[i].end)),
            ),
        forall|i: int|
            0 <= i < report.errs().len() ==> (#[trigger] report.errs()[i]).count == failures(
                state.log,
                report.errs()[i].kind,
            ),
        forall|bucket: u64, start: u64, end: u64|
            hits(state.log, CHUNK, bucket, Some((start, end))) > 0 <==> #[trigger] counts_range(
                report.ops(),
                bucket,
                start,
                end,
            ),
        forall|kind: ErrorKind|
            failures(state.log, kind) > 0 <==> #[trigger] counts_kind(report.errs(), kind),
{
    let ops = report.ops();
    let errs = report.errs();
    assert forall|i: int| 0 <= i < ops.len() implies (#[trigger] ops[i]).count == hits(
        state.log,
        CHUNK,
        ops[i].bucket,
        Some((ops[i].start, ops[i].end)),
    ) by {
        lemma_tally_single(ops, i);
    }
    assert forall|i: int| 0 <= i < errs.len() implies (#[trigger] errs[i]).count == failures(
        state.log,
        errs[i].kind,
    ) by {
        lemma_error_tally_single(errs, i);
    }
    assert forall|bucket: u64, start: u64, end: u64|
        hits(state.log, CHUNK, bucket, Some((start, end))) > 0 <==> #[trigger] counts_range(
            ops,
            bucket,
            start,
            end,
        ) by {
        let only = Some((start, end));
        assert(tally(ops, bucket, only) == hits(state.log, CHUNK, bucket, only));
        if tally(ops, bucket, only) > 0 {
            let at = lemma_tally_witness(ops, bucket, only);
            assert(item_counts(ops[at], bucket, only));
        }
        if counts_range(ops, bucket, start, end) {
            let at = choose|i: int|
                0 <= i < ops.len() && item_counts(#[trigger] ops[i], bucket, only);
            lemma_tally_single(ops, at);
        }
    }
    assert forall|kind: ErrorKind|
        failures(state.log, kind) > 0 <==> #[trigger] counts_kind(errs, kind) by {
        assert(error_tally(errs, kind) == failures(state.log, kind));
        if error_tally(errs, kind) > 0 {
            let at = lemma_error_tally_witness(errs, kind);
            assert(errs[at].kind == kind);
        }
        if counts_kind(errs, kind) {
            let at = choose|i: int| 0 <= i < errs.len() && (#[trigger] errs[i]).kind == kind;
            lemma_error_tally_single(errs, at);
        }
    }
}

/// Whether some labelled count is the given text with the given count.
pub open spec fn holds_label(labelled: Seq<(String, u64)>, text: Seq<char>, count: u64) -> bool {
    exists|j: int|
        0 <= j < labelled.len() && (#[trigger] labelled[j]).0@ == text && labelled[j].1 == count
}

/// Two reports of one tracker state serialise alike: the same position and
/// size, the same total for every bucket, and every error text with its
/// count in the one stands with the same count in the other.
pub proof fn lemma_reports_of_one_state_agree<const CHUNK: u64>(
    state: TrackerView,
    a: Report<CHUNK>,
    b: Report<CHUNK>,
    out_a: NativeReport,
    out_b: NativeReport,
)
    requires
        a.summarises(state),
        b.summarises(state),
        a.serialised_as(out_a),
        b.serialised_as(out_b),
    ensures
        out_a.metadata == out_b.metadata,
        out_a.io_operations@ == out_b.io_operations@,
        forall|i: int|
            0 <= i < out_a.io_errors@.len() ==> holds_label(
                out_b.io_errors@,
                (#[trigger] out_a.io_errors@[i]).0@,
                out_a.io_errors@[i].1,
            ),
{
    assert forall|bucket: u64|
        out_a.io_operations@.contains_key(bucket) <==> out_b.io_operations@.contains_key(bucket) by {
        assert(tally(a.ops(), bucket, None) == hits(state.log, CHUNK, bucket, None));
        assert(tally(b.ops(), bucket, None) == hits(state.log, CHUNK, bucket, None));
    }
    assert forall|bucket: u64| out_a.io_operations@.contains_key(bucket) implies out_a.io_operations@[bucket]
        == out_b.io_operations@[bucket] by {
        assert(tally(a.ops(), bucket, None) == hits(state.log, CHUNK, bucket, None));
        assert(tally(b.ops(), bucket, None) == hits(state.log, CHUNK, bucket, None));
    }
    assert(out_a.io_operations@ =~= out_b.io_operations@);
    assert forall|i: int| 0 <= i < out_a.io_errors@.len() implies holds_label(
        out_b.io_errors@,
        (#[trigger] out_a.io_errors@[i]).0@,
        out_a.io_errors@[i].1,
    ) by {
        let kind = a.errs()[i].kind;
        lemma_error_tally_single(a.errs(), i);
        assert(error_tally(a.errs(), kind) == failures(state.log, kind));
        assert(error_tally(b.errs(), kind) == failures(state.log, kind));
        let j = lemma_error_tally_witness(b.errs(), kind);
        lemma_error_tally_single(b.errs(), j);
        assert(out_b.io_errors@[j].0@ == out_a.io_errors@[i].0@);
        assert(out_b.io_errors@[j].1 == out_a.io_errors@[i].1);
    }
}

} // verus!
