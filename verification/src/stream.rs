use vstd::prelude::*;
use crate::date_time::Timestamp;
use crate::error::Error;
use crate::log_entry::{level_of, ts_field_of, LogEntry, LogEntryView, LogLevel};

verus! {

/// Attributes each raw record to one source index.
pub open spec fn attach_source(records: Seq<Seq<u8>>, source: nat) -> Seq<LogEntryView> {
    records.map_values(|c: Seq<u8>| LogEntryView { contents: c, source })
}

/// A pull-driven sequence of records.  `advance` moves to the next record or
/// marks exhaustion; `current` exposes the live record, which is reused
/// storage, until the next advance.
pub trait RecordStream: Sized {
    /// The records this stream will still emit after the current one, in
    /// order.
    spec fn outs(&self) -> Seq<LogEntryView>;

    /// The current record.
    spec fn cur(&self) -> Option<LogEntryView>;

    /// The stream's internal invariant.
    spec fn inv(&self) -> bool;

    /// Moves to the next record, or marks exhaustion when none is left.
    /// An error is an I/O fault of the underlying source; production halts.
    fn advance(&mut self) -> (r: Result<(), Error>)
        requires
            old(self).inv(),
        ensures
            final(self).inv(),
            r is Ok ==> (if old(self).outs().len() == 0 {
                final(self).cur() is None && final(self).outs().len() == 0
            } else {
                final(self).cur() == Some(old(self).outs()[0]) && final(self).outs() == old(
                    self,
                ).outs().drop_first()
            }),
    ;

    /// The current record, absent before the first advance and after
    /// exhaustion.
    fn current(&self) -> (r: Option<&LogEntry>)
        requires
            self.inv(),
        ensures
            r matches Some(e) ==> self.cur() == Some(e@) && e.wf(),
            r is None ==> self.cur() is None,
    ;

    /// The current record's timestamp: `None` when there is no current
    /// record, `Some(None)` when the current record has no parseable
    /// timestamp.
    fn current_timestamp(&mut self) -> (r: Option<Option<Timestamp>>)
        requires
            old(self).inv(),
        ensures
            final(self).inv(),
            final(self).outs() == old(self).outs(),
            final(self).cur() == old(self).cur(),
            r matches Some(t) ==> old(self).cur() matches Some(e) && t == ts_field_of(e.contents),
            r is None ==> old(self).cur() is None,
    ;

    /// The current record's severity: `None` when there is no current
    /// record, `Some(None)` when the current record has no parseable
    /// severity.
    fn current_level(&mut self) -> (r: Option<Option<LogLevel>>)
        requires
            old(self).inv(),
        ensures
            final(self).inv(),
            final(self).outs() == old(self).outs(),
            final(self).cur() == old(self).cur(),
            r matches Some(l) ==> old(self).cur() matches Some(e) && l == level_of(e.contents),
            r is None ==> old(self).cur() is None,
    ;
}

/// The views of a vector of records, in order.
pub open spec fn views_of(entries: Seq<LogEntry>) -> Seq<LogEntryView> {
    Seq::new(entries.len(), |i: int| entries[i]@)
}

/// A record stream over records already in memory, emitted in order: the
/// in-process counterpart of a framed byte source.
pub struct VecRecordStream {
    entries: Vec<LogEntry>,
    next: usize,
    live: bool,
}

impl VecRecordStream {
    /// A stream that will emit the given records in order.
    pub fn new(entries: Vec<LogEntry>) -> (r: VecRecordStream)
        requires
            forall|i: int| 0 <= i < entries@.len() ==> (#[trigger] entries@[i]).wf(),
        ensures
            r.inv(),
            r.cur() is None,
            r.outs() == views_of(entries@),
    {
        let r = VecRecordStream { entries, next: 0, live: false };
        proof {
            assert(r.outs() =~= views_of(r.entries@));
        }
        r
    }
}

impl RecordStream for VecRecordStream {
    closed spec fn outs(&self) -> Seq<LogEntryView> {
        views_of(self.entries@).skip(self.next as int)
    }

    closed spec fn cur(&self) -> Option<LogEntryView> {
        if self.live {
            Some(self.entries@[self.next - 1]@)
        } else {
            None
        }
    }

    closed spec fn inv(&self) -> bool {
        &&& self.next <= self.entries@.len()
        &&& (self.live ==> 1 <= self.next)
        &&& forall|i: int| 0 <= i < self.entries@.len() ==> (#[trigger] self.entries@[i]).wf()
    }

    fn advance(&mut self) -> (r: Result<(), Error>)
        ensures
            r is Ok,
    {
        if self.next < self.entries.len() {
            proof {
                assert(old(self).outs()[0] == self.entries@[self.next as int]@);
                assert(old(self).outs().drop_first() =~= views_of(self.entries@).skip(
                    self.next + 1,
                ));
            }
            self.next = self.next + 1;
            self.live = true;
        } else {
            proof {
                assert(old(self).outs().len() == 0);
            }
            self.live = false;
        }
        Ok(())
    }

    fn current(&self) -> (r: Option<&LogEntry>) {
        if self.live {
            Some(&self.entries[self.next - 1])
        } else {
            None
        }
    }

    fn current_timestamp(&mut self) -> (r: Option<Option<Timestamp>>) {
        if self.live {
            let ghost views0 = views_of(self.entries@);
            let idx = self.next - 1;
            let e = &mut self.entries[idx];
            let t = e.timestamp();
            proof {
                assert(views_of(self.entries@) =~= views0);
            }
            Some(t)
        } else {
            None
        }
    }

    fn current_level(&mut self) -> (r: Option<Option<LogLevel>>) {
        if self.live {
            let ghost views0 = views_of(self.entries@);
            let idx = self.next - 1;
            let e = &mut self.entries[idx];
            let l = e.level();
            proof {
                assert(views_of(self.entries@) =~= views0);
            }
            Some(l)
        } else {
            None
        }
    }
}

} // verus!
