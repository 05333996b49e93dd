//! A stream paired with the tracker that records what was done to it.

use vstd::prelude::*;
use crate::tracker::{Tracker, TrackerView};
use std::io::SeekFrom;

verus! {

/// A stream of type `R` together with the tracker of its reads and seeks.
/// The reader owns both; whoever drives the stream performs each call on
/// [`Reader::stream_mut`] and hands the outcome to [`Reader::read`] or
/// [`Reader::seek`].
#[derive(Debug)]
pub struct Reader<R>(R, Tracker);

impl<R> Reader<R> {
    /// The wrapped stream.
    pub closed spec fn stream(&self) -> R {
        self.0
    }

    /// The state of the reader's tracker.
    pub closed spec fn recorded(&self) -> TrackerView {
        self.1@
    }

    /// Pairs a stream with an empty tracker, given the outcome of rewinding
    /// the stream to its start: a failed rewind is handed back and no reader
    /// is made.
    pub fn new(reader: R, rewound: Result<(), std::io::Error>) -> (made: Result<Self, std::io::Error>)
        ensures
            match rewound {
                Ok(_) => made is Ok && made->Ok_0.stream() == reader && made->Ok_0.recorded()
                    == TrackerView::empty(),
                Err(e) => made is Err && made->Err_0 == e,
            },
    {
        match rewound {
            Ok(_) => Ok(Reader(reader, Tracker::new())),
            Err(e) => Err(e),
        }
    }

    /// The tracker, for reporting.
    pub fn tracker(&self) -> (tracker: &Tracker)
        ensures
            tracker@ == self.recorded(),
    {
        &self.1
    }

    /// The wrapped stream, to perform a call on; the tracker is untouched.
    pub fn stream_mut(&mut self) -> (stream: &mut R)
        ensures
            *stream == old(self).stream(),
            final(self).stream() == *final(stream),
            final(self).recorded() == old(self).recorded(),
    {
        &mut self.0
    }

    /// Records the outcome of a read on the stream and hands it back
    /// unchanged.
    pub fn read(&mut self, read: Result<usize, std::io::Error>) -> (same: Result<usize, std::io::Error>)
        requires
            old(self).recorded().admits_read(read),
        ensures
            same == read,
            final(self).recorded() == old(self).recorded().after_read(read),
            final(self).stream() == old(self).stream(),
    {
        self.1.read(read)
    }

    /// Records the outcome of a seek on the stream and hands it back
    /// unchanged.
    pub fn seek(&mut self, from: SeekFrom, seek: Result<u64, std::io::Error>) -> (same: Result<u64, std::io::Error>)
        requires
            TrackerView::admits_seek(from, seek),
        ensures
            same == seek,
            final(self).recorded() == old(self).recorded().after_seek(from, seek),
            final(self).stream() == old(self).stream(),
    {
        self.1.seek(from, seek)
    }
}

} // verus!
