//! The log store boundary: an append + ordered-iterate + clear
//! capability, consumed by the reconciler and the aggregator. The
//! in-memory implementation below conforms to it; a persistent backend
//! can be substituted without touching the consumers.

use vstd::prelude::*;

use crate::entry::{EntryView, LogEntry};
use crate::error::TTError;

verus! {

/// The storage capability for the task log.
///
/// An implementation may fail with `IOFailure` on any operation that
/// touches storage, but a failed operation leaves the entries as they
/// were: each append is atomic.
pub trait TTLogger: Sized {
    /// The entries the log holds, in append order. An implementation
    /// written outside the verifier may leave this at its default;
    /// nothing is then proved about it.
    open spec fn entries(&self) -> Seq<EntryView> {
        Seq::empty()
    }

    /// Appends one entry to the log; nothing else changes.
    fn write(&mut self, entry: LogEntry) -> (r: Result<(), TTError>)
        ensures
            r is Ok ==> final(self).entries() == old(self).entries().push(entry@),
            r is Err ==> final(self).entries() == old(self).entries() && r == Err::<
                (),
                TTError,
            >(TTError::IOFailure),
    ;

    /// Prepares the log for use; idempotent, and the entries are
    /// untouched.
    fn init(&mut self) -> (r: Result<(), TTError>)
        ensures
            final(self).entries() == old(self).entries(),
            r is Err ==> r == Err::<(), TTError>(TTError::IOFailure),
    ;

    /// Removes every entry.
    fn clear_log(&mut self) -> (r: Result<(), TTError>)
        ensures
            r is Ok ==> final(self).entries() == Seq::<EntryView>::empty(),
            r is Err ==> final(self).entries() == old(self).entries() && r == Err::<
                (),
                TTError,
            >(TTError::IOFailure),
    ;

    /// Every entry, in append order.
    fn all_entries(&self) -> (r: Vec<LogEntry>)
        ensures
            r.deep_view() == self.entries(),
    ;
}

/// An in-memory log: the reference implementation of the storage
/// boundary. It cannot fail.
pub struct MemLog {
    items: Vec<LogEntry>,
}

impl MemLog {
    /// An empty in-memory log.
    pub fn new() -> (r: MemLog)
        ensures
            r.entries() == Seq::<EntryView>::empty(),
    {
        let r = MemLog { items: Vec::new() };
        assert(r.entries() =~= Seq::<EntryView>::empty());
        r
    }
}

impl TTLogger for MemLog {
    closed spec fn entries(&self) -> Seq<EntryView> {
        self.items.deep_view()
    }

    fn write(&mut self, entry: LogEntry) -> (r: Result<(), TTError>) {
        let ghost prev = self.items.deep_view();
        self.items.push(entry);
        assert(self.items.deep_view() =~= prev.push(entry@));
        Ok(())
    }

    fn init(&mut self) -> (r: Result<(), TTError>) {
        Ok(())
    }

    fn clear_log(&mut self) -> (r: Result<(), TTError>) {
        self.items = Vec::new();
        assert(self.items.deep_view() =~= Seq::<EntryView>::empty());
        Ok(())
    }

    fn all_entries(&self) -> (r: Vec<LogEntry>) {
        let mut out: Vec<LogEntry> = Vec::new();
        let mut i: usize = 0;
        while i < self.items.len()
            invariant
                i <= self.items@.len(),
                out.deep_view() == self.items.deep_view().take(i as int),
            decreases self.items@.len() - i,
        {
            let ghost prev = out.deep_view();
            out.push(self.items[i].clone());
            assert(out.deep_view() =~= prev.push(self.items@[i as int]@));
            assert(out.deep_view() =~= self.items.deep_view().take(i as int + 1));
            i = i + 1;
        }
        assert(out.deep_view() =~= self.items.deep_view());
        out
    }
}

} // verus!
