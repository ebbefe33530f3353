use vstd::prelude::*;
use crate::date_time::Timestamp;
use crate::error::Error;
use crate::log_entry::{find_first, lemma_find_first, lemma_find_first_unique};
use crate::log_entry::LogEntry;
use crate::log_entry::LogEntryView;
use crate::log_entry::LogLevel;
use crate::rev_reader::{find_last, lemma_find_last, lemma_find_last_unique, rev_span_of, RevReader};
use crate::source::ByteSource;
use crate::stream::{attach_source, RecordStream};

verus! {

broadcast use vstd::std_specs::vec::group_vec_axioms;

/// The next physical line of `s`: the shortest prefix ending with the
/// delimiter, or all of `s` when the delimiter does not occur, and the rest.
pub open spec fn next_line_of(s: Seq<u8>, d: u8) -> (Seq<u8>, Seq<u8>) {
    match find_first(s, d) {
        Some(i) => (s.subrange(0, i + 1), s.subrange(i + 1, s.len() as int)),
        None => (s, Seq::empty()),
    }
}

/// Groups the lines of `rem` into blank-line-terminated records, `acc`
/// holding a record's already-read opening lines.  A line no longer than the
/// terminator sequence closes the record in hand, provided that record
/// already holds content beyond terminator length; otherwise the blank line
/// is itself leading content and accumulation continues.  The end of the
/// source yields the record in hand once.
pub open spec fn frame_fwd(rem: Seq<u8>, d: u8, elen: int, acc: Seq<u8>) -> Seq<Seq<u8>>
    decreases rem.len(),
    via frame_fwd_decreases
{
    if rem.len() == 0 {
        if acc.len() > 0 {
            seq![acc]
        } else {
            Seq::empty()
        }
    } else {
        let (line, rest) = next_line_of(rem, d);
        if line.len() <= elen && acc.len() > elen {
            seq![acc + line] + frame_fwd(rest, d, elen, Seq::empty())
        } else {
            frame_fwd(rest, d, elen, acc + line)
        }
    }
}

#[via_fn]
proof fn frame_fwd_decreases(rem: Seq<u8>, d: u8, elen: int, acc: Seq<u8>) {
    lemma_find_first(rem, d);
}

/// Frames delimiter-terminated lines from a byte source into logical
/// records, reusing one record object across advances.
pub struct LogEntryReader<S> {
    reader: S,
    offset: u64,
    total: u64,
    eol_seq_last: u8,
    eol_seq_len: usize,
    entry: LogEntry,
}

impl<S: ByteSource> LogEntryReader<S> {
    /// The bytes not yet framed.
    pub closed spec fn remaining(&self) -> Seq<u8> {
        self.reader.contents().subrange(self.offset as int, self.total as int)
    }

    /// The terminator's last byte, which delimits physical lines.
    pub closed spec fn eol_last(&self) -> u8 {
        self.eol_seq_last
    }

    /// The terminator length the framer was built with.
    pub closed spec fn eol_len(&self) -> int {
        self.eol_seq_len as int
    }

    /// The source index records are attributed to.
    pub closed spec fn src_of(&self) -> nat {
        self.entry@.source
    }

    /// Offsets are in range, and the reused record is coherent.
    pub closed spec fn wf(&self) -> bool {
        &&& self.offset <= self.total
        &&& self.total == self.reader.contents().len()
        &&& self.entry.wf()
        &&& self.eol_seq_len >= 1
    }

    /// The records still to come, as raw bytes.
    pub closed spec fn raw_outs(&self) -> Seq<Seq<u8>> {
        frame_fwd(self.remaining(), self.eol_seq_last, self.eol_seq_len as int, Seq::empty())
    }

    /// A forward framer over `reader` with the given line terminator.
    pub fn new(reader: S, eol_seq: &[u8]) -> (r: Result<LogEntryReader<S>, Error>)
        requires
            eol_seq@.len() >= 1,
        ensures
            r matches Ok(rd) ==> rd.inv() && rd.cur() is None && rd.src_of() == 0
                && rd.eol_last() == eol_seq@[eol_seq@.len() - 1] && rd.eol_len() == eol_seq@.len()
                && rd.outs() == attach_source(
                frame_fwd(
                    reader.contents(),
                    eol_seq@[eol_seq@.len() - 1],
                    eol_seq@.len() as int,
                    Seq::empty(),
                ),
                0,
            ),
    {
        let mut reader = reader;
        let n = match reader.byte_len() {
            Ok(n) => n,
            Err(e) => {
                return Err(e);
            },
        };
        let rd = LogEntryReader {
            reader,
            offset: 0,
            total: n,
            eol_seq_last: eol_seq[eol_seq.len() - 1],
            eol_seq_len: eol_seq.len(),
            entry: LogEntry::new(Vec::new()),
        };
        proof {
            assert(rd.remaining() =~= rd.reader.contents());
        }
        Ok(rd)
    }

    /// The same framer attributing records to the given source index.
    pub fn with_source(self, source: usize) -> (r: LogEntryReader<S>)
        requires
            self.inv(),
        ensures
            r.inv(),
            self.cur() is None ==> r.cur() is None,
            r.src_of() == source,
            r.raw_outs() == self.raw_outs(),
            r.eol_last() == self.eol_last(),
            r.eol_len() == self.eol_len(),
    {
        let entry = self.entry.with_source(source);
        LogEntryReader { entry, ..self }
    }

    /// Reads the next line, advancing past it.
    fn read_line(&mut self) -> (r: Result<Vec<u8>, Error>)
        requires
            old(self).wf(),
        ensures
            final(self).wf(),
            final(self).entry == old(self).entry,
            final(self).eol_seq_last == old(self).eol_seq_last,
            final(self).eol_seq_len == old(self).eol_seq_len,
            final(self).reader.contents() == old(self).reader.contents(),
            old(self).remaining().len() == 0 ==> r is Ok,
            r matches Ok(line) ==> line@ == next_line_of(
                old(self).remaining(),
                old(self).eol_seq_last,
            ).0 && final(self).remaining() == next_line_of(
                old(self).remaining(),
                old(self).eol_seq_last,
            ).1,
    {
        let ghost rem0 = self.remaining();
        let d = self.eol_seq_last;
        let mut line: Vec<u8> = Vec::new();
        loop
            invariant
                self.wf(),
                rem0.len() == 0 ==> self.offset == self.total,
                d == self.eol_seq_last,
                self.entry == old(self).entry,
                self.eol_seq_last == old(self).eol_seq_last,
                self.eol_seq_len == old(self).eol_seq_len,
                self.reader.contents() == old(self).reader.contents(),
                self.total == old(self).total,
                old(self).offset <= self.offset <= self.total,
                line@ == old(self).reader.contents().subrange(
                    old(self).offset as int,
                    self.offset as int,
                ),
                rem0 == old(self).remaining(),
                forall|j: int| 0 <= j < line@.len() ==> line@[j] != d,
            decreases self.total - self.offset,
        {
            if self.offset == self.total {
                proof {
                    assert(line@ =~= rem0);
                    lemma_find_first(rem0, d);
                    if find_first(rem0, d) is Some {
                        let i = find_first(rem0, d).unwrap();
                        assert(rem0[i] == d);
                        assert(line@[i] != d);
                    }
                    assert(self.remaining() =~= Seq::<u8>::empty());
                }
                return Ok(line);
            }
            let v = match self.reader.read_at(self.offset, 1) {
                Ok(v) => v,
                Err(e) => {
                    return Err(e);
                },
            };
            let b = v[0];
            proof {
                assert(b == self.reader.contents()[self.offset as int]);
            }
            line.push(b);
            self.offset = self.offset + 1;
            proof {
                assert(line@ =~= old(self).reader.contents().subrange(
                    old(self).offset as int,
                    self.offset as int,
                ));
            }
            if b == d {
                proof {
                    let i = line@.len() - 1;
                    assert(line@[i] == d);
                    assert(forall|j: int| 0 <= j <= i ==> rem0[j] == line@[j]);
                    lemma_find_first_unique(rem0, d, i);
                    assert(line@ =~= rem0.subrange(0, i + 1));
                    assert(self.remaining() =~= rem0.subrange(i + 1, rem0.len() as int));
                }
                return Ok(line);
            }
        }
    }
}

impl<S: ByteSource> RecordStream for LogEntryReader<S> {
    closed spec fn outs(&self) -> Seq<LogEntryView> {
        attach_source(self.raw_outs(), self.src_of())
    }

    closed spec fn cur(&self) -> Option<LogEntryView> {
        if self.entry@.contents.len() > 0 {
            Some(self.entry@)
        } else {
            None
        }
    }

    closed spec fn inv(&self) -> bool {
        self.wf()
    }

    fn advance(&mut self) -> (r: Result<(), Error>)
        ensures
            old(self).remaining().len() == 0 ==> r is Ok,
    {
        let ghost rem0 = self.remaining();
        let ghost d = self.eol_seq_last;
        let ghost elen = self.eol_seq_len as int;
        self.entry.reset();
        let mut acc: Vec<u8> = Vec::new();
        loop
            invariant_except_break
                self.wf(),
                rem0.len() == 0 ==> self.remaining().len() == 0,
                d == self.eol_seq_last,
                elen == self.eol_seq_len as int,
                self.entry@.contents.len() == 0,
                self.entry@.source == old(self).entry@.source,
                self.entry.wf(),
                frame_fwd(rem0, d, elen, Seq::empty()) == frame_fwd(
                    self.remaining(),
                    d,
                    elen,
                    acc@,
                ),
                rem0 == old(self).remaining(),
                self.reader.contents() == old(self).reader.contents(),
            ensures
                self.wf(),
                d == self.eol_seq_last,
                elen == self.eol_seq_len as int,
                self.entry@.contents.len() == 0,
                self.entry@.source == old(self).entry@.source,
                self.entry.wf(),
                self.reader.contents() == old(self).reader.contents(),
                acc@.len() > 0 ==> frame_fwd(rem0, d, elen, Seq::empty()) == seq![acc@]
                    + frame_fwd(self.remaining(), d, elen, Seq::empty()),
                acc@.len() == 0 ==> frame_fwd(rem0, d, elen, Seq::empty()).len() == 0 && frame_fwd(
                    self.remaining(),
                    d,
                    elen,
                    Seq::empty(),
                ).len() == 0,
            decreases self.remaining().len(),
        {
            let ghost rem_here = self.remaining();
            let ghost acc_here = acc@;
            let line = match self.read_line() {
                Ok(l) => l,
                Err(e) => {
                    return Err(e);
                },
            };
            if line.len() == 0 {
                proof {
                    lemma_find_first(rem_here, d);
                    assert(rem_here.len() == 0);
                    if acc@.len() > 0 {
                        assert(frame_fwd(rem_here, d, elen, acc@) == seq![acc@]);
                        assert(seq![acc@] =~= seq![acc@] + frame_fwd(
                            self.remaining(),
                            d,
                            elen,
                            Seq::empty(),
                        ));
                    }
                }
                break;
            }
            let line_len = line.len();
            let acc_len = acc.len();
            let mut line = line;
            acc.append(&mut line);
            proof {
                assert(acc@ == acc_here + next_line_of(rem_here, d).0);
                lemma_find_first(rem_here, d);
                assert(self.remaining().len() < rem_here.len());
            }
            if line_len <= self.eol_seq_len && acc_len > self.eol_seq_len {
                // a blank line after content beyond terminator length: a
                // record boundary
                proof {
                    assert(frame_fwd(rem_here, d, elen, acc_here) == seq![acc@] + frame_fwd(
                        self.remaining(),
                        d,
                        elen,
                        Seq::empty(),
                    ));
                }
                break;
            }
            // otherwise the line, a leading blank included, is content
        }
        if acc.len() > 0 {
            self.entry.set_contents(acc);
            Ok(())
        } else {
            Ok(())
        }
    }

    fn current(&self) -> (r: Option<&LogEntry>) {
        if self.entry.contents().len() > 0 {
            Some(&self.entry)
        } else {
            None
        }
    }

    fn current_timestamp(&mut self) -> (r: Option<Option<Timestamp>>) {
        if self.entry.contents().len() > 0 {
            Some(self.entry.timestamp())
        } else {
            None
        }
    }

    fn current_level(&mut self) -> (r: Option<Option<LogLevel>>) {
        if self.entry.contents().len() > 0 {
            Some(self.entry.level())
        } else {
            None
        }
    }
}

/// Appends all of `src` to `dst`.
pub(crate) fn append_all(dst: &mut Vec<u8>, src: &[u8])
    ensures
        final(dst)@ == old(dst)@ + src@,
{
    let n = src.len();
    let mut k: usize = 0;
    while k < n
        invariant
            0 <= k <= n,
            n == src@.len(),
            dst@ == old(dst)@ + src@.subrange(0, k as int),
        decreases n - k,
    {
        dst.push(src[k]);
        assert(dst@ =~= old(dst)@ + src@.subrange(0, k + 1));
        k += 1;
    }
    assert(dst@ =~= old(dst)@ + src@);
}

/// Groups the spans of a backward scan into blank-line-terminated records,
/// mirrored: `acc` holds a record's already-read closing lines, new spans are
/// prepended, and each yielded record is padded with two terminator
/// sequences so byte-offset field extraction sees the forward on-disk
/// layout.
pub open spec fn frame_rev(r: Seq<u8>, eol: Seq<u8>, acc: Seq<u8>) -> Seq<Seq<u8>>
    decreases r.len(),
    via frame_rev_decreases
{
    if r.len() == 0 {
        if acc.len() > 0 {
            seq![acc + eol + eol]
        } else {
            Seq::empty()
        }
    } else {
        match rev_span_of(r, eol[0], eol.len() as int) {
            Some((span, rest)) => if span.len() > 0 && acc.len() == 0 {
                frame_rev(rest, eol, span)
            } else if span.len() > 0 {
                frame_rev(rest, eol, span + eol + acc)
            } else if acc.len() > 0 {
                seq![acc + eol + eol] + frame_rev(rest, eol, Seq::empty())
            } else {
                frame_rev(rest, eol, Seq::empty())
            },
            None => Seq::empty(),
        }
    }
}

#[via_fn]
proof fn frame_rev_decreases(r: Seq<u8>, eol: Seq<u8>, acc: Seq<u8>) {
    if r.len() > 0 {
        lemma_find_last(r, eol[0]);
    }
}

/// Frames records backward out of a seekable byte source, newest record
/// first, reusing one record object across advances.
pub struct LogEntryRevReader<S> {
    reader: RevReader<S>,
    eol_seq_first: u8,
    eol_seq: Vec<u8>,
    entry: LogEntry,
}

impl<S: ByteSource> LogEntryRevReader<S> {
    /// The source bytes not yet framed.
    pub closed spec fn remaining(&self) -> Seq<u8> {
        self.reader.remaining()
    }

    /// The terminator the framer frames by.
    pub closed spec fn eol(&self) -> Seq<u8> {
        self.eol_seq@
    }

    /// The source index records are attributed to.
    pub closed spec fn src_of(&self) -> nat {
        self.entry@.source
    }

    /// The scanner is coherent and the reused record reflects its bytes.
    pub closed spec fn wf(&self) -> bool {
        &&& self.reader.wf()
        &&& self.eol_seq@.len() >= 1
        &&& self.eol_seq_first == self.eol_seq@[0]
        &&& self.entry.wf()
    }

    /// The records still to come, as raw bytes.
    pub closed spec fn raw_outs(&self) -> Seq<Seq<u8>> {
        frame_rev(self.reader.remaining(), self.eol_seq@, Seq::empty())
    }

    /// A reverse framer over `reader` with the given line terminator,
    /// scanning through a scratch buffer of `capacity` bytes.
    pub fn with_capacity(reader: S, eol_seq: &[u8], capacity: usize) -> (r: Result<
        LogEntryRevReader<S>,
        Error,
    >)
        requires
            eol_seq@.len() >= 1,
            capacity >= 1,
        ensures
            r matches Ok(rd) ==> rd.inv() && rd.cur() is None && rd.src_of() == 0 && rd.eol()
                == eol_seq@ && rd.outs() == attach_source(
                frame_rev(reader.contents(), eol_seq@, Seq::empty()),
                0,
            ),
    {
        let inner = match RevReader::with_capacity(reader, capacity) {
            Ok(inner) => inner,
            Err(e) => {
                return Err(e);
            },
        };
        let rd = LogEntryRevReader {
            reader: inner,
            eol_seq_first: eol_seq[0],
            eol_seq: vstd::slice::slice_to_vec(eol_seq),
            entry: LogEntry::new(Vec::new()),
        };
        Ok(rd)
    }

    /// The same framer attributing records to the given source index.
    pub fn with_source(self, source: usize) -> (r: LogEntryRevReader<S>)
        requires
            self.inv(),
        ensures
            r.inv(),
            self.cur() is None ==> r.cur() is None,
            r.src_of() == source,
            r.raw_outs() == self.raw_outs(),
            r.eol() == self.eol(),
    {
        let entry = self.entry.with_source(source);
        LogEntryRevReader { entry, ..self }
    }
}

impl<S: ByteSource> RecordStream for LogEntryRevReader<S> {
    closed spec fn outs(&self) -> Seq<LogEntryView> {
        attach_source(self.raw_outs(), self.src_of())
    }

    closed spec fn cur(&self) -> Option<LogEntryView> {
        if self.entry@.contents.len() > 0 {
            Some(self.entry@)
        } else {
            None
        }
    }

    closed spec fn inv(&self) -> bool {
        self.wf()
    }

    fn advance(&mut self) -> (r: Result<(), Error>)
        ensures
            old(self).remaining().len() == 0 ==> r is Ok,
    {
        let ghost rem0 = self.reader.remaining();
        let ghost eol = self.eol_seq@;
        self.entry.reset();
        let mut acc: Vec<u8> = Vec::new();
        loop
            invariant_except_break
                self.wf(),
                rem0.len() == 0 ==> self.reader.remaining().len() == 0,
                eol == self.eol_seq@,
                self.entry@.contents.len() == 0,
                self.entry@.source == old(self).entry@.source,
                self.entry.wf(),
                frame_rev(rem0, eol, Seq::empty()) == frame_rev(
                    self.reader.remaining(),
                    eol,
                    acc@,
                ),
                rem0 == old(self).reader.remaining(),
                self.reader.source_contents() == old(self).reader.source_contents(),
            ensures
                self.wf(),
                eol == self.eol_seq@,
                self.entry@.contents.len() == 0,
                self.entry@.source == old(self).entry@.source,
                self.entry.wf(),
                self.reader.source_contents() == old(self).reader.source_contents(),
                acc@.len() > 0 ==> frame_rev(rem0, eol, Seq::empty()) == seq![acc@ + eol + eol]
                    + frame_rev(self.reader.remaining(), eol, Seq::empty()),
                acc@.len() == 0 ==> frame_rev(rem0, eol, Seq::empty()).len() == 0 && frame_rev(
                    self.reader.remaining(),
                    eol,
                    Seq::empty(),
                ).len() == 0,
            decreases self.reader.remaining().len(),
        {
            let ghost rem_here = self.reader.remaining();
            let ghost acc_here = acc@;
            let elen = self.eol_seq.len();
            match self.reader.read_until(self.eol_seq_first, elen) {
                Err(e) => {
                    return Err(e);
                },
                Ok(None) => {
                    proof {
                        assert(rem_here.len() == 0);
                        if acc@.len() > 0 {
                            assert(frame_rev(rem_here, eol, acc@) == seq![acc@ + eol + eol]);
                            assert(seq![acc@ + eol + eol] =~= seq![acc@ + eol + eol] + frame_rev(
                                self.reader.remaining(),
                                eol,
                                Seq::empty(),
                            ));
                        }
                    }
                    break;
                },
                Ok(Some(buf)) => {
                    proof {
                        assert(rem_here.len() > 0);
                        lemma_find_last(rem_here, eol[0]);
                        assert(self.reader.remaining().len() < rem_here.len());
                    }
                    if buf.len() > 0 && acc.len() == 0 {
                        proof {
                            assert(frame_rev(rem_here, eol, acc_here) == frame_rev(
                                self.reader.remaining(),
                                eol,
                                buf@,
                            ));
                        }
                        acc = buf;
                    } else if buf.len() > 0 {
                        let ghost b0 = buf@;
                        let mut joined = buf;
                        append_all(&mut joined, self.eol_seq.as_slice());
                        joined.append(&mut acc);
                        acc = joined;
                        proof {
                            assert(acc@ =~= b0 + eol + acc_here);
                            assert(frame_rev(rem_here, eol, acc_here) == frame_rev(
                                self.reader.remaining(),
                                eol,
                                b0 + eol + acc_here,
                            ));
                        }
                    } else if acc.len() > 0 {
                        proof {
                            assert(frame_rev(rem_here, eol, acc_here) == seq![acc_here + eol + eol]
                                + frame_rev(self.reader.remaining(), eol, Seq::empty()));
                        }
                        break;
                    } else {
                        proof {
                            assert(frame_rev(rem_here, eol, acc_here) == frame_rev(
                                self.reader.remaining(),
                                eol,
                                Seq::<u8>::empty(),
                            ));
                            assert(acc@ =~= Seq::<u8>::empty());
                        }
                    }
                },
            }
        }
        if acc.len() > 0 {
            let ghost acc_done = acc@;
            append_all(&mut acc, self.eol_seq.as_slice());
            append_all(&mut acc, self.eol_seq.as_slice());
            proof {
                assert(acc@ == acc_done + eol + eol);
            }
            self.entry.set_contents(acc);
            Ok(())
        } else {
            Ok(())
        }
    }

    fn current(&self) -> (r: Option<&LogEntry>) {
        if self.entry.contents().len() > 0 {
            Some(&self.entry)
        } else {
            None
        }
    }

    fn current_timestamp(&mut self) -> (r: Option<Option<Timestamp>>) {
        if self.entry.contents().len() > 0 {
            Some(self.entry.timestamp())
        } else {
            None
        }
    }

    fn current_level(&mut self) -> (r: Option<Option<LogLevel>>) {
        if self.entry.contents().len() > 0 {
            Some(self.entry.level())
        } else {
            None
        }
    }
}

/// A line terminator the two framings agree on: nonempty, its first byte
/// (the backward scan's delimiter) and its last byte (the forward scan's
/// delimiter) recurring nowhere else in it.
pub open spec fn wf_eol(eol: Seq<u8>) -> bool {
    &&& eol.len() >= 1
    &&& forall|j: int| 0 <= j < eol.len() - 1 ==> #[trigger] eol[j] != eol.last()
    &&& forall|j: int| 1 <= j < eol.len() ==> #[trigger] eol[j] != eol[0]
}

/// A physical content line: at least one content byte, closed by the
/// terminator, neither of the terminator's edge bytes among the content.
pub open spec fn wf_line(l: Seq<u8>, eol: Seq<u8>) -> bool {
    &&& l.len() > eol.len()
    &&& l.subrange(l.len() - eol.len(), l.len() as int) == eol
    &&& forall|j: int| 0 <= j < l.len() - eol.len() ==> #[trigger] l[j] != eol[0] && l[j] != eol.last()
}

/// A record body: one or more content lines.
pub open spec fn wf_body(lines: Seq<Seq<u8>>, eol: Seq<u8>) -> bool {
    &&& lines.len() >= 1
    &&& forall|i: int| 0 <= i < lines.len() ==> wf_line(#[trigger] lines[i], eol)
}

/// The bytes of a list of pieces, in order.
pub open spec fn concat_bytes(xs: Seq<Seq<u8>>) -> Seq<u8>
    decreases xs.len(),
{
    if xs.len() == 0 {
        Seq::empty()
    } else {
        xs[0] + concat_bytes(xs.drop_first())
    }
}

/// The bytes short of one trailing terminator.
pub open spec fn chop(s: Seq<u8>, eol: Seq<u8>) -> Seq<u8> {
    s.subrange(0, s.len() - eol.len())
}

/// The on-disk bytes of records each followed by one blank line.
pub open spec fn blob_of(recs: Seq<Seq<Seq<u8>>>, eol: Seq<u8>) -> Seq<u8>
    decreases recs.len(),
{
    if recs.len() == 0 {
        Seq::empty()
    } else {
        concat_bytes(recs[0]) + eol + blob_of(recs.drop_first(), eol)
    }
}

/// A well-formed body is longer than the terminator and ends with it.
proof fn lemma_concat_wf_body(lines: Seq<Seq<u8>>, eol: Seq<u8>)
    requires
        wf_body(lines, eol),
    ensures
        concat_bytes(lines).len() > eol.len(),
        concat_bytes(lines).subrange(
            concat_bytes(lines).len() - eol.len(),
            concat_bytes(lines).len() as int,
        ) == eol,
    decreases lines.len(),
{
    if lines.len() == 1 {
        assert(concat_bytes(lines.drop_first()) =~= Seq::<u8>::empty());
        assert(concat_bytes(lines) =~= lines[0]);
    } else {
        assert(wf_body(lines.drop_first(), eol)) by {
            assert(forall|i: int|
                0 <= i < lines.drop_first().len() ==> lines.drop_first()[i] == lines[i + 1]);
        }
        lemma_concat_wf_body(lines.drop_first(), eol);
        let cb = concat_bytes(lines);
        let ct = concat_bytes(lines.drop_first());
        assert(cb =~= lines[0] + ct);
        assert(cb.subrange(cb.len() - eol.len(), cb.len() as int) =~= ct.subrange(
            ct.len() - eol.len(),
            ct.len() as int,
        ));
    }
}

/// Framing one well-formed record forward consumes its lines one by one and
/// emits the lines read so far, the record and its blank line together.
proof fn lemma_fwd_lines(lines: Seq<Seq<u8>>, rest: Seq<u8>, acc: Seq<u8>, eol: Seq<u8>)
    requires
        wf_eol(eol),
        forall|i: int| 0 <= i < lines.len() ==> wf_line(#[trigger] lines[i], eol),
        lines.len() >= 1 || acc.len() > eol.len(),
    ensures
        frame_fwd(concat_bytes(lines) + eol + rest, eol.last(), eol.len() as int, acc) == seq![
            acc + concat_bytes(lines) + eol,
        ] + frame_fwd(rest, eol.last(), eol.len() as int, Seq::empty()),
    decreases lines.len(),
{
    let d = eol.last();
    let elen = eol.len() as int;
    let whole = concat_bytes(lines) + eol + rest;
    if lines.len() == 0 {
        assert(whole =~= eol + rest);
        assert(whole[elen - 1] == d);
        assert forall|j: int| 0 <= j < elen - 1 implies whole[j] != d by {
            assert(whole[j] == eol[j]);
        }
        lemma_find_first_unique(whole, d, elen - 1);
        let (line, r2) = next_line_of(whole, d);
        assert(line =~= eol);
        assert(r2 =~= rest);
        assert(acc + line =~= acc + concat_bytes(lines) + eol);
        assert(line.len() <= elen && acc.len() > elen);
    } else {
        let l = lines[0];
        let tail = lines.drop_first();
        let after = concat_bytes(tail) + eol + rest;
        assert(whole =~= l + after);
        assert(whole[l.len() - 1] == d) by {
            assert(l[l.len() - 1] == l.subrange(l.len() - elen, l.len() as int)[elen - 1]);
        }
        assert forall|j: int| 0 <= j < l.len() - 1 implies whole[j] != d by {
            assert(whole[j] == l[j]);
            if j >= l.len() - elen {
                assert(l[j] == l.subrange(l.len() - elen, l.len() as int)[j - (l.len() - elen)]);
            }
        }
        lemma_find_first_unique(whole, d, l.len() - 1);
        let (line, r2) = next_line_of(whole, d);
        assert(line =~= l);
        assert(r2 =~= after);
        assert(line.len() > elen);
        lemma_fwd_lines(tail, rest, acc + l, eol);
        assert(acc + l + concat_bytes(tail) + eol =~= acc + concat_bytes(lines) + eol);
    }
}

/// Framing a well-formed blob forward yields every record once, in order,
/// each with its blank line.
pub proof fn lemma_fwd_frames(recs: Seq<Seq<Seq<u8>>>, eol: Seq<u8>)
    requires
        wf_eol(eol),
        forall|i: int| 0 <= i < recs.len() ==> wf_body(#[trigger] recs[i], eol),
    ensures
        frame_fwd(blob_of(recs, eol), eol.last(), eol.len() as int, Seq::empty()) == Seq::new(
            recs.len(),
            |i: int| concat_bytes(recs[i]) + eol,
        ),
    decreases recs.len(),
{
    let d = eol.last();
    let elen = eol.len() as int;
    if recs.len() == 0 {
        assert(frame_fwd(blob_of(recs, eol), d, elen, Seq::empty()) =~= Seq::new(
            recs.len(),
            |i: int| concat_bytes(recs[i]) + eol,
        ));
    } else {
        let body = recs[0];
        let front = recs.drop_first();
        assert(forall|i: int| 0 <= i < front.len() ==> front[i] == recs[i + 1]);
        lemma_fwd_lines(body, blob_of(front, eol), Seq::empty(), eol);
        assert(Seq::<u8>::empty() + concat_bytes(body) + eol =~= concat_bytes(body) + eol);
        lemma_fwd_frames(front, eol);
        assert(frame_fwd(blob_of(recs, eol), d, elen, Seq::empty()) =~= Seq::new(
            recs.len(),
            |i: int| concat_bytes(recs[i]) + eol,
        ));
    }
}

/// A list of pieces is its front pieces followed by its last.
proof fn lemma_concat_last(xs: Seq<Seq<u8>>)
    requires
        xs.len() >= 1,
    ensures
        concat_bytes(xs) == concat_bytes(xs.drop_last()) + xs.last(),
    decreases xs.len(),
{
    if xs.len() == 1 {
        assert(concat_bytes(xs.drop_first()) =~= Seq::<u8>::empty());
        assert(concat_bytes(xs.drop_last()) =~= Seq::<u8>::empty());
        assert(concat_bytes(xs) =~= concat_bytes(xs.drop_last()) + xs.last());
    } else {
        lemma_concat_last(xs.drop_first());
        assert(xs.drop_first().drop_last() =~= xs.drop_last().drop_first());
        assert(xs.drop_last()[0] == xs[0]);
        assert(concat_bytes(xs) =~= concat_bytes(xs.drop_last()) + xs.last());
    }
}

/// A blob is its front records followed by its last record and a blank line.
proof fn lemma_blob_last(recs: Seq<Seq<Seq<u8>>>, eol: Seq<u8>)
    requires
        recs.len() >= 1,
    ensures
        blob_of(recs, eol) == blob_of(recs.drop_last(), eol) + concat_bytes(recs.last()) + eol,
    decreases recs.len(),
{
    if recs.len() == 1 {
        assert(blob_of(recs.drop_first(), eol) =~= Seq::<u8>::empty());
        assert(blob_of(recs.drop_last(), eol) =~= Seq::<u8>::empty());
        assert(blob_of(recs, eol) =~= blob_of(recs.drop_last(), eol) + concat_bytes(recs.last())
            + eol);
    } else {
        lemma_blob_last(recs.drop_first(), eol);
        assert(recs.drop_first().drop_last() =~= recs.drop_last().drop_first());
        assert(recs.drop_last()[0] == recs[0]);
        assert(blob_of(recs, eol) =~= blob_of(recs.drop_last(), eol) + concat_bytes(recs.last())
            + eol);
    }
}

/// The last occurrence of the terminator's first byte in bytes closed by the
/// terminator and followed by bytes free of it sits where the terminator
/// begins.
proof fn lemma_find_last_after(x: Seq<u8>, y: Seq<u8>, eol: Seq<u8>)
    requires
        wf_eol(eol),
        x.len() == 0 || (x.len() >= eol.len() && x.subrange(x.len() - eol.len(), x.len() as int)
            == eol),
        forall|j: int| 0 <= j < y.len() ==> y[j] != eol[0],
    ensures
        x.len() > 0 ==> find_last(x + y, eol[0]) == Some(x.len() - eol.len()),
        x.len() == 0 ==> find_last(x + y, eol[0]) is None,
{
    let d0 = eol[0];
    let w = x + y;
    let elen = eol.len() as int;
    if x.len() > 0 {
        let i = x.len() - elen;
        assert(w[i] == d0) by {
            assert(x[i] == x.subrange(x.len() - elen, x.len() as int)[0]);
        }
        assert forall|j: int| i < j < w.len() implies w[j] != d0 by {
            if j < x.len() {
                assert(w[j] == x[j]);
                assert(x[j] == x.subrange(x.len() - elen, x.len() as int)[j - i]);
            } else {
                assert(w[j] == y[j - x.len()]);
            }
        }
        lemma_find_last_unique(w, d0, i);
    } else {
        lemma_find_last(w, d0);
        if find_last(w, d0) is Some {
            let i = find_last(w, d0).unwrap();
            assert(w[i] == d0);
            assert(w[i] == y[i]);
        }
    }
}

/// A new span joined in front of the record in hand, the terminator between
/// them when both are present.
pub open spec fn span_joined(span: Seq<u8>, acc: Seq<u8>, eol: Seq<u8>) -> Seq<u8> {
    if acc.len() == 0 {
        span
    } else {
        span + eol + acc
    }
}

/// Scanning one record's lines backward joins them, newest last, onto the
/// record in hand, then the scan moves on to whatever stands in front.
#[verifier::rlimit(60)]
proof fn lemma_rev_lines(lines: Seq<Seq<u8>>, front: Seq<u8>, acc: Seq<u8>, eol: Seq<u8>)
    requires
        wf_eol(eol),
        wf_body(lines, eol),
        front.len() == 0 || (front.len() >= eol.len() && front.subrange(
            front.len() - eol.len(),
            front.len() as int,
        ) == eol),
    ensures
        front.len() == 0 ==> frame_rev(front + chop(concat_bytes(lines), eol), eol, acc) == seq![
            span_joined(chop(concat_bytes(lines), eol), acc, eol) + eol + eol,
        ],
        front.len() > 0 ==> frame_rev(front + chop(concat_bytes(lines), eol), eol, acc)
            == frame_rev(
            chop(front, eol),
            eol,
            span_joined(chop(concat_bytes(lines), eol), acc, eol),
        ),
    decreases lines.len(),
{
    let d0 = eol[0];
    let elen = eol.len() as int;
    let cb = concat_bytes(lines);
    lemma_concat_wf_body(lines, eol);
    let r = front + chop(cb, eol);
    if lines.len() == 1 {
        let l = lines[0];
        assert(concat_bytes(lines.drop_first()) =~= Seq::<u8>::empty());
        assert(cb =~= l);
        let y = chop(cb, eol);
        assert(y.len() >= 1);
        assert forall|j: int| 0 <= j < y.len() implies y[j] != d0 by {
            assert(y[j] == l[j]);
        }
        lemma_find_last_after(front, y, eol);
        if front.len() == 0 {
            assert(r =~= y);
            assert(rev_span_of(r, d0, elen) == Some((r, Seq::<u8>::empty())));
            // the whole remainder is one span; the record in hand is
            // finished at the start of the source
            let acc2 = span_joined(r, acc, eol);
            assert(frame_rev(r, eol, acc) == frame_rev(Seq::<u8>::empty(), eol, acc2));
            assert(acc2.len() > 0);
            assert(frame_rev(Seq::<u8>::empty(), eol, acc2) =~= seq![acc2 + eol + eol]);
            assert(acc2 + eol + eol =~= span_joined(chop(cb, eol), acc, eol) + eol + eol);
        } else {
            let i = front.len() - elen;
            assert(r.subrange(i + elen, r.len() as int) =~= y);
            assert(r.subrange(0, i) =~= chop(front, eol));
            assert(rev_span_of(r, d0, elen) == Some((y, chop(front, eol))));
            assert(y.len() > 0);
            assert(frame_rev(r, eol, acc) == frame_rev(
                chop(front, eol),
                eol,
                span_joined(y, acc, eol),
            ));
            assert(span_joined(y, acc, eol) =~= span_joined(chop(cb, eol), acc, eol));
        }
    } else {
        let l = lines.last();
        let fl = lines.drop_last();
        assert(wf_body(fl, eol)) by {
            assert(forall|i: int| 0 <= i < fl.len() ==> fl[i] == lines[i]);
        }
        lemma_concat_last(lines);
        lemma_concat_wf_body(fl, eol);
        let cfl = concat_bytes(fl);
        let y = chop(l, eol);
        assert(y.len() >= 1);
        assert forall|j: int| 0 <= j < y.len() implies y[j] != d0 by {
            assert(y[j] == l[j]);
        }
        assert(chop(cb, eol) =~= cfl + y);
        assert(r =~= (front + cfl) + y);
        let xf = front + cfl;
        assert(xf.len() >= elen);
        assert(xf.subrange(xf.len() - elen, xf.len() as int) =~= cfl.subrange(
            cfl.len() - elen,
            cfl.len() as int,
        ));
        lemma_find_last_after(xf, y, eol);
        let i = front.len() + cfl.len() - elen;
        assert(r.subrange(i + elen, r.len() as int) =~= y);
        assert(r.subrange(0, i) =~= front + chop(cfl, eol));
        assert(rev_span_of(r, d0, elen) == Some((y, front + chop(cfl, eol))));
        assert(y.len() > 0);
        let acc2 = span_joined(y, acc, eol);
        assert(frame_rev(r, eol, acc) == frame_rev(front + chop(cfl, eol), eol, acc2));
        lemma_rev_lines(fl, front, acc2, eol);
        assert(span_joined(chop(cfl, eol), acc2, eol) =~= span_joined(chop(cb, eol), acc, eol))
            by {
            assert(chop(cfl, eol) + eol + y =~= chop(cb, eol));
        }
        if front.len() == 0 {
            assert(frame_rev(r, eol, acc) == seq![
                span_joined(chop(cb, eol), acc, eol) + eol + eol,
            ]);
        }
    }
}

/// The records a backward scan of a well-formed blob yields, newest first,
/// each padded with two terminators.
pub open spec fn rev_records(recs: Seq<Seq<Seq<u8>>>, eol: Seq<u8>) -> Seq<Seq<u8>> {
    Seq::new(
        recs.len(),
        |i: int| chop(concat_bytes(recs[recs.len() - 1 - i]), eol) + eol + eol,
    )
}

/// From a record boundary with a record in hand, the scan emits that record
/// and then every record in front of it, newest first.
proof fn lemma_rev_chain(recs: Seq<Seq<Seq<u8>>>, acc: Seq<u8>, eol: Seq<u8>)
    requires
        wf_eol(eol),
        recs.len() >= 1,
        forall|i: int| 0 <= i < recs.len() ==> wf_body(#[trigger] recs[i], eol),
        acc.len() >= 1,
    ensures
        frame_rev(blob_of(recs.drop_last(), eol) + concat_bytes(recs.last()), eol, acc) == seq![
            acc + eol + eol,
        ] + rev_records(recs, eol),
    decreases recs.len(),
{
    let d0 = eol[0];
    let elen = eol.len() as int;
    let body = recs.last();
    let frecs = recs.drop_last();
    assert(forall|i: int| 0 <= i < frecs.len() ==> frecs[i] == recs[i]);
    lemma_concat_wf_body(body, eol);
    let cb = concat_bytes(body);
    let front = blob_of(frecs, eol);
    let state2 = front + cb;
    // the record boundary: an empty span closes the record in hand
    assert(front.len() == 0 || (front.len() >= elen && front.subrange(
        front.len() - elen,
        front.len() as int,
    ) == eol)) by {
        if frecs.len() > 0 {
            lemma_blob_last(frecs, eol);
            assert(front.subrange(front.len() - elen, front.len() as int) =~= eol);
        }
    }
    assert(state2.subrange(state2.len() - elen, state2.len() as int) =~= cb.subrange(
        cb.len() - elen,
        cb.len() as int,
    ));
    lemma_find_last_after(state2, Seq::empty(), eol);
    assert(state2 + Seq::<u8>::empty() =~= state2);
    let i = state2.len() - elen;
    assert(state2.subrange(i + elen, state2.len() as int) =~= Seq::<u8>::empty());
    assert(rev_span_of(state2, d0, elen) == Some((Seq::<u8>::empty(), state2.subrange(0, i))));
    assert(state2.subrange(0, i) =~= front + chop(cb, eol));
    assert(frame_rev(state2, eol, acc) == seq![acc + eol + eol] + frame_rev(
        front + chop(cb, eol),
        eol,
        Seq::empty(),
    ));
    lemma_rev_lines(body, front, Seq::empty(), eol);
    if frecs.len() == 0 {
        assert(frame_rev(front + chop(cb, eol), eol, Seq::empty()) == seq![
            chop(cb, eol) + eol + eol,
        ]);
        assert(seq![acc + eol + eol] + seq![chop(cb, eol) + eol + eol] =~= seq![acc + eol + eol]
            + rev_records(recs, eol));
    } else {
        lemma_blob_last(frecs, eol);
        assert(chop(front, eol) =~= blob_of(frecs.drop_last(), eol) + concat_bytes(frecs.last()));
        lemma_rev_chain(frecs, chop(cb, eol), eol);
        assert(chop(cb, eol).len() >= 1);
        assert(frame_rev(front + chop(cb, eol), eol, Seq::empty()) == seq![
            chop(cb, eol) + eol + eol,
        ] + rev_records(frecs, eol));
        assert(seq![acc + eol + eol] + (seq![chop(cb, eol) + eol + eol] + rev_records(frecs, eol))
            =~= seq![acc + eol + eol] + rev_records(recs, eol)) by {
            assert(forall|k: int|
                0 <= k < frecs.len() ==> rev_records(frecs, eol)[k] == rev_records(recs, eol)[k
                    + 1]);
        }
    }
}

/// Framing a well-formed blob backward yields every record once, newest
/// first, each padded with two terminators in place of its blank line.
pub proof fn lemma_rev_frames(recs: Seq<Seq<Seq<u8>>>, eol: Seq<u8>)
    requires
        wf_eol(eol),
        forall|i: int| 0 <= i < recs.len() ==> wf_body(#[trigger] recs[i], eol),
    ensures
        frame_rev(blob_of(recs, eol), eol, Seq::empty()) == rev_records(recs, eol),
    decreases recs.len(),
{
    let d0 = eol[0];
    let elen = eol.len() as int;
    if recs.len() == 0 {
        assert(frame_rev(blob_of(recs, eol), eol, Seq::empty()) =~= rev_records(recs, eol));
    } else {
        let body = recs.last();
        let frecs = recs.drop_last();
        assert(forall|i: int| 0 <= i < frecs.len() ==> frecs[i] == recs[i]);
        lemma_blob_last(recs, eol);
        lemma_concat_wf_body(body, eol);
        let cb = concat_bytes(body);
        let front = blob_of(frecs, eol);
        let state2 = front + cb;
        let blob = blob_of(recs, eol);
        assert(blob =~= state2 + eol);
        // the blank line at the very end yields one empty span, skipped
        assert(blob.subrange(blob.len() - elen, blob.len() as int) =~= eol);
        lemma_find_last_after(blob, Seq::empty(), eol);
        assert(blob + Seq::<u8>::empty() =~= blob);
        let i0 = state2.len() as int;
        assert(blob.subrange(i0 + elen, blob.len() as int) =~= Seq::<u8>::empty());
        assert(blob.subrange(0, i0) =~= state2);
        assert(rev_span_of(blob, d0, elen) == Some((Seq::<u8>::empty(), state2)));
        assert(frame_rev(blob, eol, Seq::empty()) == frame_rev(state2, eol, Seq::empty()));
        // the last line's terminator yields another empty span, skipped
        assert(front.len() == 0 || (front.len() >= elen && front.subrange(
            front.len() - elen,
            front.len() as int,
        ) == eol)) by {
            if frecs.len() > 0 {
                lemma_blob_last(frecs, eol);
                assert(front.subrange(front.len() - elen, front.len() as int) =~= eol);
            }
        }
        assert(state2.subrange(state2.len() - elen, state2.len() as int) =~= cb.subrange(
            cb.len() - elen,
            cb.len() as int,
        ));
        lemma_find_last_after(state2, Seq::empty(), eol);
        assert(state2 + Seq::<u8>::empty() =~= state2);
        let i1 = state2.len() - elen;
        assert(state2.subrange(i1 + elen, state2.len() as int) =~= Seq::<u8>::empty());
        assert(state2.subrange(0, i1) =~= front + chop(cb, eol));
        assert(frame_rev(state2, eol, Seq::empty()) == frame_rev(
            front + chop(cb, eol),
            eol,
            Seq::empty(),
        ));
        lemma_rev_lines(body, front, Seq::empty(), eol);
        if frecs.len() == 0 {
            assert(frame_rev(blob, eol, Seq::empty()) =~= rev_records(recs, eol));
        } else {
            lemma_blob_last(frecs, eol);
            assert(chop(front, eol) =~= blob_of(frecs.drop_last(), eol) + concat_bytes(
                frecs.last(),
            ));
            lemma_rev_chain(frecs, chop(cb, eol), eol);
            assert(chop(cb, eol).len() >= 1);
            assert(frame_rev(blob, eol, Seq::empty()) =~= rev_records(recs, eol)) by {
                assert(forall|k: int|
                    0 <= k < frecs.len() ==> rev_records(frecs, eol)[k] == rev_records(recs, eol)[k
                        + 1]);
            }
        }
    }
}

/// The on-disk bytes of records separated by blank lines, the final record
/// without one.
pub open spec fn blob_open_of(recs: Seq<Seq<Seq<u8>>>, eol: Seq<u8>) -> Seq<u8> {
    if recs.len() == 0 {
        Seq::empty()
    } else {
        blob_of(recs.drop_last(), eol) + concat_bytes(recs.last())
    }
}

/// Framing one final record forward consumes its lines and yields it at the
/// end of the source, without a blank line.
proof fn lemma_fwd_lines_eof(lines: Seq<Seq<u8>>, acc: Seq<u8>, eol: Seq<u8>)
    requires
        wf_eol(eol),
        forall|i: int| 0 <= i < lines.len() ==> wf_line(#[trigger] lines[i], eol),
        lines.len() >= 1 || acc.len() >= 1,
    ensures
        frame_fwd(concat_bytes(lines), eol.last(), eol.len() as int, acc) == seq![
            acc + concat_bytes(lines),
        ],
    decreases lines.len(),
{
    let d = eol.last();
    let elen = eol.len() as int;
    if lines.len() == 0 {
        assert(acc + concat_bytes(lines) =~= acc);
    } else {
        let l = lines[0];
        let tail = lines.drop_first();
        let whole = concat_bytes(lines);
        let after = concat_bytes(tail);
        assert(whole =~= l + after);
        assert(whole[l.len() - 1] == d) by {
            assert(l[l.len() - 1] == l.subrange(l.len() - elen, l.len() as int)[elen - 1]);
        }
        assert forall|j: int| 0 <= j < l.len() - 1 implies whole[j] != d by {
            assert(whole[j] == l[j]);
            if j >= l.len() - elen {
                assert(l[j] == l.subrange(l.len() - elen, l.len() as int)[j - (l.len() - elen)]);
            }
        }
        lemma_find_first_unique(whole, d, l.len() - 1);
        let (line, r2) = next_line_of(whole, d);
        assert(line =~= l);
        assert(r2 =~= after);
        assert(line.len() > elen);
        lemma_fwd_lines_eof(tail, acc + l, eol);
        assert(acc + l + concat_bytes(tail) =~= acc + whole);
    }
}

/// Framing forward a blob whose final record has no trailing blank line
/// still yields every record once, the final one exactly as on disk.
pub proof fn lemma_fwd_frames_open(recs: Seq<Seq<Seq<u8>>>, eol: Seq<u8>)
    requires
        wf_eol(eol),
        forall|i: int| 0 <= i < recs.len() ==> wf_body(#[trigger] recs[i], eol),
    ensures
        frame_fwd(blob_open_of(recs, eol), eol.last(), eol.len() as int, Seq::empty())
            == Seq::new(
            recs.len(),
            |i: int|
                if i < recs.len() - 1 {
                    concat_bytes(recs[i]) + eol
                } else {
                    concat_bytes(recs[i])
                },
        ),
    decreases recs.len(),
{
    let d = eol.last();
    let elen = eol.len() as int;
    if recs.len() == 0 {
        assert(frame_fwd(blob_open_of(recs, eol), d, elen, Seq::empty()) =~= Seq::new(
            recs.len(),
            |i: int| concat_bytes(recs[i]),
        ));
    } else if recs.len() == 1 {
        assert(blob_of(recs.drop_last(), eol) =~= Seq::<u8>::empty());
        assert(blob_open_of(recs, eol) =~= concat_bytes(recs[0]));
        lemma_fwd_lines_eof(recs[0], Seq::empty(), eol);
        assert(Seq::<u8>::empty() + concat_bytes(recs[0]) =~= concat_bytes(recs[0]));
        assert(frame_fwd(blob_open_of(recs, eol), d, elen, Seq::empty()) =~= Seq::new(
            recs.len(),
            |i: int|
                if i < recs.len() - 1 {
                    concat_bytes(recs[i]) + eol
                } else {
                    concat_bytes(recs[i])
                },
        ));
    } else {
        let front = recs.drop_first();
        assert(forall|i: int| 0 <= i < front.len() ==> front[i] == recs[i + 1]);
        assert(blob_open_of(recs, eol) =~= concat_bytes(recs[0]) + eol + blob_open_of(
            front,
            eol,
        )) by {
            assert(recs.drop_last()[0] == recs[0]);
            assert(recs.drop_last().drop_first() =~= front.drop_last());
            assert(recs.last() == front.last());
        }
        lemma_fwd_lines(recs[0], blob_open_of(front, eol), Seq::empty(), eol);
        assert(Seq::<u8>::empty() + concat_bytes(recs[0]) + eol =~= concat_bytes(recs[0]) + eol);
        lemma_fwd_frames_open(front, eol);
        assert(frame_fwd(blob_open_of(recs, eol), d, elen, Seq::empty()) =~= Seq::new(
            recs.len(),
            |i: int|
                if i < recs.len() - 1 {
                    concat_bytes(recs[i]) + eol
                } else {
                    concat_bytes(recs[i])
                },
        ));
    }
}

/// Framing backward a blob whose final record has no trailing blank line
/// yields the same records as with one: the synthetic padding makes up the
/// difference.
pub proof fn lemma_rev_frames_open(recs: Seq<Seq<Seq<u8>>>, eol: Seq<u8>)
    requires
        wf_eol(eol),
        forall|i: int| 0 <= i < recs.len() ==> wf_body(#[trigger] recs[i], eol),
    ensures
        frame_rev(blob_open_of(recs, eol), eol, Seq::empty()) == rev_records(recs, eol),
{
    let d0 = eol[0];
    let elen = eol.len() as int;
    if recs.len() == 0 {
        assert(frame_rev(blob_open_of(recs, eol), eol, Seq::empty()) =~= rev_records(recs, eol));
    } else {
        let body = recs.last();
        let frecs = recs.drop_last();
        assert(forall|i: int| 0 <= i < frecs.len() ==> frecs[i] == recs[i]);
        lemma_concat_wf_body(body, eol);
        let cb = concat_bytes(body);
        let front = blob_of(frecs, eol);
        let state2 = front + cb;
        assert(blob_open_of(recs, eol) =~= state2);
        // the final record's last terminator yields one empty span, skipped
        assert(front.len() == 0 || (front.len() >= elen && front.subrange(
            front.len() - elen,
            front.len() as int,
        ) == eol)) by {
            if frecs.len() > 0 {
                lemma_blob_last(frecs, eol);
                assert(front.subrange(front.len() - elen, front.len() as int) =~= eol);
            }
        }
        assert(state2.subrange(state2.len() - elen, state2.len() as int) =~= cb.subrange(
            cb.len() - elen,
            cb.len() as int,
        ));
        lemma_find_last_after(state2, Seq::empty(), eol);
        assert(state2 + Seq::<u8>::empty() =~= state2);
        let i1 = state2.len() - elen;
        assert(state2.subrange(i1 + elen, state2.len() as int) =~= Seq::<u8>::empty());
        assert(state2.subrange(0, i1) =~= front + chop(cb, eol));
        assert(frame_rev(state2, eol, Seq::empty()) == frame_rev(
            front + chop(cb, eol),
            eol,
            Seq::empty(),
        ));
        lemma_rev_lines(body, front, Seq::empty(), eol);
        if frecs.len() == 0 {
            assert(frame_rev(state2, eol, Seq::empty()) =~= rev_records(recs, eol));
        } else {
            lemma_blob_last(frecs, eol);
            assert(chop(front, eol) =~= blob_of(frecs.drop_last(), eol) + concat_bytes(
                frecs.last(),
            ));
            lemma_rev_chain(frecs, chop(cb, eol), eol);
            assert(chop(cb, eol).len() >= 1);
            assert(frame_rev(state2, eol, Seq::empty()) =~= rev_records(recs, eol)) by {
                assert(forall|k: int|
                    0 <= k < frecs.len() ==> rev_records(frecs, eol)[k] == rev_records(recs, eol)[k
                        + 1]);
            }
        }
    }
}

/// Whether bytes end with the terminator.
pub open spec fn ends_with_eol(s: Seq<u8>, eol: Seq<u8>) -> bool {
    s.len() >= eol.len() && s.subrange(s.len() - eol.len(), s.len() as int) == eol
}

/// Bytes stripped of every trailing terminator sequence.
pub open spec fn strip_trailing(s: Seq<u8>, eol: Seq<u8>) -> Seq<u8>
    decreases s.len(),
    when eol.len() >= 1
{
    if ends_with_eol(s, eol) {
        strip_trailing(chop(s, eol), eol)
    } else {
        s
    }
}

/// Appending one terminator strips away again.
proof fn lemma_strip_one(x: Seq<u8>, eol: Seq<u8>)
    requires
        eol.len() >= 1,
        !ends_with_eol(x, eol),
    ensures
        strip_trailing(x + eol, eol) == x,
{
    assert((x + eol).subrange(x.len() as int, (x + eol).len() as int) =~= eol);
    assert(ends_with_eol(x + eol, eol));
    assert(chop(x + eol, eol) =~= x);
    assert(strip_trailing(x, eol) == x);
}

/// A record body's core, the bytes short of its final terminator, does not
/// itself end with the terminator, and both renderings of the record strip
/// down to it.
proof fn lemma_record_strips(recs: Seq<Seq<Seq<u8>>>, eol: Seq<u8>, i: int)
    requires
        wf_eol(eol),
        forall|k: int| 0 <= k < recs.len() ==> wf_body(#[trigger] recs[k], eol),
        0 <= i < recs.len(),
    ensures
        ({
            let cb = concat_bytes(recs[i]);
            let core = chop(cb, eol);
            &&& strip_trailing(cb + eol, eol) == core
            &&& strip_trailing(cb, eol) == core
            &&& strip_trailing(core + eol + eol, eol) == core
        }),
{
    let body = recs[i];
    lemma_concat_wf_body(body, eol);
    let cb = concat_bytes(body);
    let core = chop(cb, eol);
    let elen = eol.len() as int;
    // the core's last byte is content of the body's last line, never the
    // terminator's last byte
    assert(!ends_with_eol(core, eol)) by {
        if ends_with_eol(core, eol) {
            lemma_concat_last(body);
            let l = body.last();
            assert(wf_line(l, eol));
            assert(cb =~= concat_bytes(body.drop_last()) + l);
            assert(core.len() >= 1);
            assert(core[core.len() - 1] == l[l.len() - elen - 1]);
            assert(l[l.len() - elen - 1] != eol.last());
            assert(core[core.len() - 1] == core.subrange(
                core.len() - elen,
                core.len() as int,
            )[elen - 1]);
        }
    }
    lemma_strip_one(core, eol);
    assert(cb =~= core + eol);
    assert(ends_with_eol(core + eol + eol, eol)) by {
        assert((core + eol + eol).subrange(
            (core + eol + eol).len() - eol.len(),
            (core + eol + eol).len() as int,
        ) =~= eol);
    }
    assert(chop(core + eol + eol, eol) =~= core + eol);
    assert(strip_trailing(core + eol + eol, eol) == strip_trailing(core + eol, eol));
    assert(cb + eol =~= core + eol + eol);
}

/// Forward and reverse framing of the same well-formed on-disk bytes yield
/// the same records, in reverse order of each other, once each record is
/// stripped of its trailing terminators: the real blank line forward, the
/// synthetic padding backward.
pub proof fn lemma_framing_round_trip(recs: Seq<Seq<Seq<u8>>>, eol: Seq<u8>)
    requires
        wf_eol(eol),
        forall|i: int| 0 <= i < recs.len() ==> wf_body(#[trigger] recs[i], eol),
    ensures
        ({
            let fwd = frame_fwd(blob_of(recs, eol), eol.last(), eol.len() as int, Seq::empty());
            let rev = frame_rev(blob_of(recs, eol), eol, Seq::empty());
            &&& fwd.len() == recs.len()
            &&& rev.len() == recs.len()
            &&& forall|i: int| 0 <= i < recs.len() ==> #[trigger] fwd[i] == rev[recs.len() - 1 - i]
            &&& forall|i: int|
                0 <= i < recs.len() ==> strip_trailing(#[trigger] fwd[i], eol) == strip_trailing(
                    rev[recs.len() - 1 - i],
                    eol,
                )
        }),
{
    lemma_fwd_frames(recs, eol);
    lemma_rev_frames(recs, eol);
    let fwd = frame_fwd(blob_of(recs, eol), eol.last(), eol.len() as int, Seq::empty());
    let rev = frame_rev(blob_of(recs, eol), eol, Seq::empty());
    assert forall|i: int| 0 <= i < recs.len() implies #[trigger] fwd[i] == rev[recs.len() - 1
        - i] by {
        lemma_concat_wf_body(recs[i], eol);
        let cb = concat_bytes(recs[i]);
        assert(fwd[i] == cb + eol);
        assert(rev[recs.len() - 1 - i] == chop(cb, eol) + eol + eol);
        assert(cb =~= chop(cb, eol) + eol);
        assert(cb + eol =~= chop(cb, eol) + eol + eol);
    }
}

/// The round trip holds as well when the final record carries no trailing
/// blank line: forward and reverse framing still yield the same records, in
/// reverse order of each other, up to trailing terminators.
pub proof fn lemma_framing_round_trip_open(recs: Seq<Seq<Seq<u8>>>, eol: Seq<u8>)
    requires
        wf_eol(eol),
        forall|i: int| 0 <= i < recs.len() ==> wf_body(#[trigger] recs[i], eol),
    ensures
        ({
            let fwd = frame_fwd(
                blob_open_of(recs, eol),
                eol.last(),
                eol.len() as int,
                Seq::empty(),
            );
            let rev = frame_rev(blob_open_of(recs, eol), eol, Seq::empty());
            &&& fwd.len() == recs.len()
            &&& rev.len() == recs.len()
            &&& forall|i: int|
                0 <= i < recs.len() ==> strip_trailing(#[trigger] fwd[i], eol) == strip_trailing(
                    rev[recs.len() - 1 - i],
                    eol,
                )
        }),
{
    lemma_fwd_frames_open(recs, eol);
    lemma_rev_frames_open(recs, eol);
    let fwd = frame_fwd(blob_open_of(recs, eol), eol.last(), eol.len() as int, Seq::empty());
    let rev = frame_rev(blob_open_of(recs, eol), eol, Seq::empty());
    assert forall|i: int| 0 <= i < recs.len() implies strip_trailing(#[trigger] fwd[i], eol)
        == strip_trailing(rev[recs.len() - 1 - i], eol) by {
        lemma_record_strips(recs, eol, i);
        let cb = concat_bytes(recs[i]);
        assert(rev[recs.len() - 1 - i] == chop(cb, eol) + eol + eol);
        if i < recs.len() - 1 {
            assert(fwd[i] == cb + eol);
        } else {
            assert(fwd[i] == cb);
        }
    }
}

} // verus!
