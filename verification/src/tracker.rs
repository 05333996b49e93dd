//! The append-only log of call outcomes, with the cursor and the stream size
//! derived from it.

use vstd::prelude::*;
use crate::outcome::error_kind;
use std::io::SeekFrom;
use std::ops::Range;

pub use crate::report::{Report, DEFAULT_CHUNK};

verus! {

/// One logged call: the half-open byte range `[start, end)` of a successful
/// read, or the kind of error of a failed one.
#[derive(Debug)]
pub enum TrackerEntry {
    Entry(Range<u64>),
    Error(std::io::ErrorKind),
}

impl Clone for TrackerEntry {
    fn clone(&self) -> (copy: Self)
        ensures
            copy == *self,
    {
        match self {
            TrackerEntry::Entry(range) => TrackerEntry::Entry(range.start..range.end),
            TrackerEntry::Error(kind) => TrackerEntry::Error(*kind),
        }
    }
}

/// What a tracker knows, as plain mathematical values.
pub struct TrackerView {
    /// The logged calls, oldest first.
    pub log: Seq<TrackerEntry>,
    /// The absolute position after the last successful call.
    pub cursor: u64,
    /// The stream size inferred from the last successful end-relative seek.
    pub known_size: Option<u64>,
}

impl TrackerView {
    /// The state of a tracker on which nothing was recorded.
    pub open spec fn empty() -> TrackerView {
        TrackerView { log: Seq::empty(), cursor: 0, known_size: None }
    }

    /// Whether recording `outcome` as a read keeps the cursor within `u64`.
    pub open spec fn admits_read(self, outcome: Result<usize, std::io::Error>) -> bool {
        match outcome {
            Ok(len) => self.cursor + len <= u64::MAX,
            Err(_) => true,
        }
    }

    /// The state after a read with the given outcome: a failure logs its
    /// kind and moves nothing; a success of `len` bytes logs
    /// `[cursor, cursor + len)` and advances the cursor by `len`.
    pub open spec fn after_read(self, outcome: Result<usize, std::io::Error>) -> TrackerView {
        match outcome {
            Ok(len) => TrackerView {
                log: self.log.push(
                    TrackerEntry::Entry(
                        Range { start: self.cursor, end: (self.cursor + len) as u64 },
                    ),
                ),
                cursor: (self.cursor + len) as u64,
                known_size: self.known_size,
            },
            Err(e) => TrackerView {
                log: self.log.push(TrackerEntry::Error(error_kind(e))),
                cursor: self.cursor,
                known_size: self.known_size,
            },
        }
    }

    /// Whether the size that a seek with this origin and outcome implies
    /// fits in `u64`.
    pub open spec fn admits_seek(from: SeekFrom, outcome: Result<u64, std::io::Error>) -> bool {
        match (from, outcome) {
            (SeekFrom::End(e), Ok(p)) => 0 <= p - e <= u64::MAX,
            _ => true,
        }
    }

    /// The state after a seek with the given origin and outcome: a failure
    /// changes nothing; a success sets the cursor to the new position, and
    /// an end-relative one with offset `e` also sets the size to
    /// `position - e`. The log is never touched.
    pub open spec fn after_seek(self, from: SeekFrom, outcome: Result<u64, std::io::Error>) -> TrackerView {
        match outcome {
            Ok(p) => TrackerView {
                log: self.log,
                cursor: p,
                known_size: match from {
                    SeekFrom::End(e) => Some((p - e) as u64),
                    _ => self.known_size,
                },
            },
            Err(_) => self,
        }
    }
}

/// One recorded call: a read with its outcome, or a seek with its origin
/// and outcome.
pub enum Call {
    Read(Result<usize, std::io::Error>),
    Seek(SeekFrom, Result<u64, std::io::Error>),
}

impl Call {
    /// Whether the call failed.
    pub open spec fn failed(self) -> bool {
        match self {
            Call::Read(outcome) => outcome is Err,
            Call::Seek(_, outcome) => outcome is Err,
        }
    }

    /// Whether the call is a successful seek relative to the stream's end.
    pub open spec fn finds_end(self) -> bool {
        match self {
            Call::Seek(SeekFrom::End(_), Ok(_)) => true,
            _ => false,
        }
    }
}

impl TrackerView {
    /// The state after one recorded call.
    pub open spec fn after(self, call: Call) -> TrackerView {
        match call {
            Call::Read(outcome) => self.after_read(outcome),
            Call::Seek(from, outcome) => self.after_seek(from, outcome),
        }
    }

    /// The state after a sequence of recorded calls, oldest first.
    pub open spec fn after_all(self, calls: Seq<Call>) -> TrackerView
        decreases calls.len(),
    {
        if calls.len() == 0 {
            self
        } else {
            self.after_all(calls.drop_last()).after(calls.last())
        }
    }
}

/// After any call the cursor is the position that the call established: the
/// previous cursor plus the bytes read, or the position that a seek
/// returned; a failing call leaves it where it was.
pub proof fn lemma_cursor_follows_last_success(before: TrackerView, call: Call)
    requires
        call matches Call::Read(outcome) ==> before.admits_read(outcome),
    ensures
        match call {
            Call::Read(Ok(len)) => before.after(call).cursor == before.cursor + len,
            Call::Seek(_, Ok(position)) => before.after(call).cursor == position,
            _ => before.after(call).cursor == before.cursor,
        },
{
}

/// Calls that all fail move neither the cursor nor the known size, however
/// many they are.
pub proof fn lemma_failed_calls_leave_position(before: TrackerView, calls: Seq<Call>)
    requires
        forall|i: int| 0 <= i < calls.len() ==> calls[i].failed(),
    ensures
        before.after_all(calls).cursor == before.cursor,
        before.after_all(calls).known_size == before.known_size,
    decreases calls.len(),
{
    if calls.len() > 0 {
        lemma_failed_calls_leave_position(before, calls.drop_last());
        assert(calls.last().failed());
    }
}

/// Recording a sequence of calls is recording its first `n` calls and then
/// the rest.
pub proof fn lemma_after_all_splits(before: TrackerView, calls: Seq<Call>, n: int)
    requires
        0 <= n <= calls.len(),
    ensures
        before.after_all(calls) == before.after_all(calls.take(n)).after_all(calls.skip(n)),
    decreases calls.len(),
{
    if n == calls.len() {
        assert(calls.take(n) =~= calls);
    } else {
        lemma_after_all_splits(before, calls.drop_last(), n);
        assert(calls.drop_last().take(n) =~= calls.take(n));
        assert(calls.drop_last().skip(n) =~= calls.skip(n).drop_last());
    }
}

/// After any sequence of calls the cursor is the one that the most recent
/// successful call established, however many failing calls came after it.
pub proof fn lemma_cursor_is_from_last_success(before: TrackerView, calls: Seq<Call>, last: int)
    requires
        0 <= last < calls.len(),
        !calls[last].failed(),
        forall|i: int| last < i < calls.len() ==> calls[i].failed(),
    ensures
        before.after_all(calls).cursor == before.after_all(calls.take(last)).after(
            calls[last],
        ).cursor,
{
    lemma_after_all_splits(before, calls, last + 1);
    lemma_failed_calls_leave_position(
        before.after_all(calls.take(last + 1)),
        calls.skip(last + 1),
    );
    assert(calls.take(last + 1).drop_last() =~= calls.take(last));
}

/// The size of a fresh tracker stays unknown as long as no seek relative to
/// the stream's end has succeeded.
pub proof fn lemma_size_unknown_before_end_seek(calls: Seq<Call>)
    requires
        forall|i: int| 0 <= i < calls.len() ==> !calls[i].finds_end(),
    ensures
        TrackerView::empty().after_all(calls).known_size is None,
    decreases calls.len(),
{
    if calls.len() > 0 {
        lemma_size_unknown_before_end_seek(calls.drop_last());
        assert(!calls.last().finds_end());
    }
}

/// A successful seek to `position` by offset `offset` from the stream's end
/// sets the known size to exactly `position - offset`, whatever the sign of
/// the offset and whatever size was known before.
pub proof fn lemma_end_seek_gives_size(before: TrackerView, offset: i64, position: u64)
    requires
        TrackerView::admits_seek(SeekFrom::End(offset), Ok(position)),
    ensures
        before.after_seek(SeekFrom::End(offset), Ok(position)).known_size matches Some(size)
            && size == position - offset,
        before.after_seek(SeekFrom::End(offset), Ok(position)).cursor == position,
{
}

/// A failing read leaves cursor and size unchanged and appends exactly one
/// entry, the kind of its error.
pub proof fn lemma_failed_read_is_isolated(before: TrackerView, error: std::io::Error)
    ensures
        before.after_read(Err(error)).cursor == before.cursor,
        before.after_read(Err(error)).known_size == before.known_size,
        before.after_read(Err(error)).log == before.log.push(
            TrackerEntry::Error(error_kind(error)),
        ),
{
}

/// A successful read of no bytes appends the empty range at the cursor and
/// does not move the cursor.
pub proof fn lemma_empty_read_marks_cursor(before: TrackerView)
    ensures
        before.after_read(Ok(0)).cursor == before.cursor,
        before.after_read(Ok(0)).known_size == before.known_size,
        before.after_read(Ok(0)).log == before.log.push(
            TrackerEntry::Entry(Range { start: before.cursor, end: before.cursor }),
        ),
{
}

/// The log of a stream's read outcomes, its cursor and its inferred size.
#[derive(Debug)]
pub struct Tracker {
    rec: Vec<TrackerEntry>,
    pos: u64,
    sz: Option<u64>,
}

impl View for Tracker {
    type V = TrackerView;

    closed spec fn view(&self) -> TrackerView {
        TrackerView { log: self.rec@, cursor: self.pos, known_size: self.sz }
    }
}

/// `lhs - rhs` on an unsigned and a signed operand, without a lossy cast.
pub fn sub_u64_i64(lhs: u64, rhs: i64) -> (diff: u64)
    requires
        0 <= lhs - rhs <= u64::MAX,
    ensures
        diff == lhs - rhs,
{
    if rhs < 0 {
        let below: u64 = (-(rhs + 1)) as u64;
        lhs + below + 1
    } else {
        lhs - rhs as u64
    }
}

impl Tracker {
    /// An empty tracker: no log, cursor 0, size unknown.
    pub fn new() -> (tracker: Self)
        ensures
            tracker@ == TrackerView::empty(),
    {
        Self { rec: Vec::new(), pos: 0, sz: None }
    }

    /// Records the outcome of a read and hands it back unchanged. Every read
    /// adds exactly one entry to the log, a read of no bytes too.
    pub fn read(&mut self, read: Result<usize, std::io::Error>) -> (same: Result<usize, std::io::Error>)
        requires
            old(self)@.admits_read(read),
        ensures
            same == read,
            final(self)@ == old(self)@.after_read(read),
    {
        match &read {
            Err(e) => {
                let kind = e.kind();
                self.rec.push(TrackerEntry::Error(kind));
            },
            Ok(len) => {
                let begin: u64 = self.pos;
                let end: u64 = self.pos + *len as u64;
                self.pos = end;
                self.rec.push(TrackerEntry::Entry(begin..end));
            },
        }
        read
    }

    /// Records the outcome of a seek from the given origin and hands it back
    /// unchanged. A seek never adds to the log: a failed one leaves the
    /// tracker as it was, and only failed reads are logged as errors.
    pub fn seek(&mut self, from: SeekFrom, seek: Result<u64, std::io::Error>) -> (same: Result<u64, std::io::Error>)
        requires
            TrackerView::admits_seek(from, seek),
        ensures
            same == seek,
            final(self)@ == old(self)@.after_seek(from, seek),
    {
        match seek {
            Err(e) => Err(e),
            Ok(p) => {
                self.pos = p;
                if let SeekFrom::End(e) = from {
                    self.sz = Some(sub_u64_i64(p, e));
                }
                Ok(p)
            },
        }
    }

    /// The logged calls, oldest first.
    pub fn entries(&self) -> (log: &Vec<TrackerEntry>)
        ensures
            log@ == self@.log,
    {
        &self.rec
    }

    /// The inferred stream size, if an end-relative seek has succeeded.
    pub fn sz(&self) -> (size: Option<u64>)
        ensures
            size == self@.known_size,
    {
        self.sz
    }

    /// The current absolute position.
    pub fn pos(&self) -> (cursor: u64)
        ensures
            cursor == self@.cursor,
    {
        self.pos
    }
}

} // verus!
