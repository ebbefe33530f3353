use vstd::prelude::*;
use crate::error::Error;
use crate::source::ByteSource;

verus! {

broadcast use vstd::std_specs::vec::group_vec_axioms;

/// Index of the last occurrence of `b` in `s`, if any.
pub open spec fn find_last(s: Seq<u8>, b: u8) -> Option<int>
    decreases s.len(),
{
    if s.len() == 0 {
        None
    } else if s[s.len() - 1] == b {
        Some(s.len() - 1)
    } else {
        find_last(s.drop_last(), b)
    }
}

/// `find_last` returns exactly the greatest index holding `b`.
pub proof fn lemma_find_last(s: Seq<u8>, b: u8)
    ensures
        find_last(s, b) matches Some(i) ==> 0 <= i < s.len() && s[i] == b && (forall|j: int|
            i < j < s.len() ==> s[j] != b),
        find_last(s, b) is None ==> forall|j: int| 0 <= j < s.len() ==> s[j] != b,
    decreases s.len(),
{
    if s.len() > 0 && s[s.len() - 1] != b {
        lemma_find_last(s.drop_last(), b);
        assert(forall|j: int| 0 <= j < s.len() - 1 ==> s.drop_last()[j] == s[j]);
    }
}

/// A position holding `b` with none after it is what `find_last` returns.
pub proof fn lemma_find_last_unique(s: Seq<u8>, b: u8, i: int)
    requires
        0 <= i < s.len(),
        s[i] == b,
        forall|j: int| i < j < s.len() ==> s[j] != b,
    ensures
        find_last(s, b) == Some(i),
    decreases s.len(),
{
    if i < s.len() - 1 {
        lemma_find_last_unique(s.drop_last(), b, i);
    }
}

/// One backward scanning step over the bytes `r` not yet returned: the span
/// after the last delimiter, with `skip` bytes dropped at the delimiter, and
/// the bytes that remain before it.  `None` once nothing remains.
pub open spec fn rev_span_of(r: Seq<u8>, d: u8, skip: int) -> Option<(Seq<u8>, Seq<u8>)> {
    if r.len() == 0 {
        None
    } else {
        match find_last(r, d) {
            Some(i) => {
                let cut = if i + skip <= r.len() {
                    i + skip
                } else {
                    r.len() as int
                };
                Some((r.subrange(cut, r.len() as int), r.subrange(0, i)))
            },
            None => Some((r, Seq::empty())),
        }
    }
}

/// All spans a full backward scan of `r` yields, in emission order: newest
/// span first.
pub open spec fn rev_spans_of(r: Seq<u8>, d: u8, skip: int) -> Seq<Seq<u8>>
    decreases r.len(),
{
    if r.len() == 0 {
        Seq::empty()
    } else {
        match find_last(r, d) {
            Some(i) => if 0 <= i < r.len() {
                let cut = if i + skip <= r.len() {
                    i + skip
                } else {
                    r.len() as int
                };
                seq![r.subrange(cut, r.len() as int)] + rev_spans_of(r.subrange(0, i), d, skip)
            } else {
                Seq::empty()
            },
            None => seq![r],
        }
    }
}

/// One scanning step peels the newest span off the full span list.
pub proof fn lemma_rev_spans_step(r: Seq<u8>, d: u8, skip: int)
    requires
        r.len() > 0,
    ensures
        rev_span_of(r, d, skip) matches Some((span, rest)) ==> rev_spans_of(r, d, skip) == seq![
            span,
        ] + rev_spans_of(rest, d, skip),
{
    lemma_find_last(r, d);
    if find_last(r, d) is None {
        assert(rev_spans_of(Seq::<u8>::empty(), d, skip) =~= Seq::<Seq<u8>>::empty());
        assert(seq![r] + Seq::<Seq<u8>>::empty() =~= seq![r]);
    }
}

/// Joins parts oldest-first, the delimiter between each two.
pub open spec fn join_with(parts: Seq<Seq<u8>>, d: u8) -> Seq<u8>
    decreases parts.len(),
{
    if parts.len() == 0 {
        Seq::empty()
    } else if parts.len() == 1 {
        parts[0]
    } else {
        parts[0] + seq![d] + join_with(parts.drop_first(), d)
    }
}

/// Appending one more part appends a delimiter and the part.
proof fn lemma_join_with_push(parts: Seq<Seq<u8>>, x: Seq<u8>, d: u8)
    requires
        parts.len() > 0,
    ensures
        join_with(parts.push(x), d) == join_with(parts, d) + seq![d] + x,
    decreases parts.len(),
{
    if parts.len() == 1 {
        assert(parts.push(x).drop_first() =~= seq![x]);
        assert(parts.push(x)[0] == parts[0]);
        assert(join_with(seq![x], d) == x);
        assert(join_with(parts.push(x), d) == parts[0] + seq![d] + x);
        assert(join_with(parts.push(x), d) =~= join_with(parts, d) + seq![d] + x);
    } else {
        lemma_join_with_push(parts.drop_first(), x, d);
        assert(parts.push(x).drop_first() =~= parts.drop_first().push(x));
        assert(parts.push(x)[0] == parts[0]);
        assert(join_with(parts.push(x), d) =~= join_with(parts, d) + seq![d] + x);
    }
}

/// A nonempty input yields at least one span.
proof fn lemma_rev_spans_nonempty(r: Seq<u8>, d: u8, skip: int)
    requires
        r.len() > 0,
    ensures
        rev_spans_of(r, d, skip).len() > 0,
{
    lemma_find_last(r, d);
}

/// Rejoining every span of a full backward scan, oldest span first and the
/// delimiter between each two, reproduces the scanned bytes, for any
/// capacity, for any source that does not open with the delimiter.
pub proof fn lemma_rev_scan_rejoins(s: Seq<u8>, d: u8)
    requires
        s.len() > 0 ==> s[0] != d,
    ensures
        join_with(rev_spans_of(s, d, 1).reverse(), d) == s,
    decreases s.len(),
{
    if s.len() == 0 {
        assert(rev_spans_of(s, d, 1) =~= Seq::<Seq<u8>>::empty());
        assert(rev_spans_of(s, d, 1).reverse() =~= Seq::<Seq<u8>>::empty());
        assert(join_with(Seq::<Seq<u8>>::empty(), d) =~= s);
    } else {
        lemma_find_last(s, d);
        let fo = find_last(s, d);
        if fo is Some {
            let i = fo.unwrap();
            assert(s[i] == d);
            assert(i > 0);
            let span = s.subrange(i + 1, s.len() as int);
            let rest = s.subrange(0, i);
            assert(rev_spans_of(s, d, 1) == seq![span] + rev_spans_of(rest, d, 1));
            assert(rest[0] == s[0]);
            lemma_rev_scan_rejoins(rest, d);
            lemma_rev_spans_nonempty(rest, d, 1);
            let rr = rev_spans_of(rest, d, 1).reverse();
            assert(rev_spans_of(s, d, 1).reverse() =~= rr.push(span));
            lemma_join_with_push(rr, span, d);
            assert(join_with(rr.push(span), d) == rest + seq![d] + span);
            assert(rest + seq![d] + span =~= s);
        } else {
            assert(rev_spans_of(s, d, 1) =~= seq![s]);
            assert(rev_spans_of(s, d, 1).reverse() =~= seq![s]);
        }
    }
}

/// Finds the last occurrence of `b` in `v`.
fn find_last_byte(v: &Vec<u8>, b: u8) -> (r: Option<usize>)
    ensures
        r matches Some(i) ==> Some(i as int) == find_last(v@, b),
        r is None ==> find_last(v@, b) is None,
{
    let mut k: usize = v.len();
    while k > 0
        invariant
            k <= v@.len(),
            forall|j: int| k <= j < v@.len() ==> v@[j] != b,
        decreases k,
    {
        k -= 1;
        if v[k] == b {
            proof {
                lemma_find_last_unique(v@, b, k as int);
            }
            return Some(k);
        }
    }
    proof {
        lemma_find_last(v@, b);
        if find_last(v@, b) is Some {
            let i = find_last(v@, b).unwrap();
            assert(v@[i] == b);
            assert(v@[i] != b);
        }
    }
    None
}

/// Scans a seekable byte source backward, returning successive spans between
/// delimiter occurrences through a fixed-capacity scratch buffer.
pub struct RevReader<S> {
    source: S,
    pos: u64,
    buf: Vec<u8>,
    capacity: usize,
}

impl<S: ByteSource> RevReader<S> {
    /// The source bytes not yet returned: the unloaded prefix followed by
    /// the loaded, unscanned bytes.
    pub closed spec fn remaining(&self) -> Seq<u8> {
        self.source.contents().subrange(0, self.pos + self.buf@.len())
    }

    /// The bytes of the underlying source.
    pub closed spec fn source_contents(&self) -> Seq<u8> {
        self.source.contents()
    }

    /// The loaded bytes sit exactly where the frontier says, and the scratch
    /// capacity is positive.
    pub closed spec fn wf(&self) -> bool {
        &&& self.pos + self.buf@.len() <= self.source.contents().len()
        &&& self.buf@ == self.source.contents().subrange(
            self.pos as int,
            self.pos + self.buf@.len(),
        )
        &&& self.capacity >= 1
    }

    /// A scanner over `source` positioned at its end, reading through a
    /// scratch buffer of `capacity` bytes.
    pub fn with_capacity(source: S, capacity: usize) -> (r: Result<RevReader<S>, Error>)
        requires
            capacity >= 1,
        ensures
            r matches Ok(rd) ==> rd.wf() && rd.remaining() == source.contents()
                && rd.source_contents() == source.contents(),
    {
        let mut source = source;
        match source.byte_len() {
            Ok(n) => {
                let rd = RevReader { source, pos: n, buf: Vec::new(), capacity };
                proof {
                    assert(rd.buf@ =~= rd.source.contents().subrange(
                        rd.pos as int,
                        rd.pos + rd.buf@.len(),
                    ));
                    assert(rd.remaining() =~= rd.source.contents());
                }
                Ok(rd)
            },
            Err(e) => Err(e),
        }
    }

    /// Prepends `source` to `target`, preserving byte order.
    pub fn push_front(target: &mut Vec<u8>, source: &[u8])
        ensures
            final(target)@ == source@ + old(target)@,
    {
        if source.len() == 0 {
            proof {
                assert(source@ + old(target)@ =~= old(target)@);
            }
        } else {
            let mut joined = vstd::slice::slice_to_vec(source);
            joined.append(target);
            *target = joined;
        }
    }

    /// The next span of bytes strictly between two delimiter occurrences,
    /// scanning backward; `skip_len` bytes are dropped at the delimiter when
    /// assembling the output.  `Ok(None)` once the start of the source has
    /// been reached with nothing left to return: exhaustion is certain and
    /// never surfaced as an error.
    pub fn read_until(&mut self, byte: u8, skip_len: usize) -> (r: Result<Option<Vec<u8>>, Error>)
        requires
            old(self).wf(),
        ensures
            final(self).wf(),
            final(self).source_contents() == old(self).source_contents(),
            old(self).remaining().len() == 0 ==> (r matches Ok(o) && o is None),
            r matches Ok(o) ==> match o {
                None => old(self).remaining().len() == 0 && final(self).remaining()
                    == old(self).remaining(),
                Some(v) => rev_span_of(old(self).remaining(), byte, skip_len as int) == Some(
                    (v@, final(self).remaining()),
                ),
            },
    {
        let ghost r0 = old(self).remaining();
        let mut output: Vec<u8> = Vec::new();
        loop
            invariant
                self.wf(),
                self.source_contents() == old(self).source_contents(),
                r0 == old(self).remaining(),
                r0 == self.remaining() + output@,
                r0.len() == 0 ==> self.pos == 0 && self.buf@.len() == 0 && output@.len() == 0,
                forall|j: int| 0 <= j < output@.len() ==> output@[j] != byte,
            decreases 2 * self.pos + self.buf@.len(),
        {
            if self.buf.len() == 0 {
                if self.pos == 0 {
                    proof {
                        assert(self.remaining() =~= Seq::<u8>::empty());
                        assert(r0 =~= output@);
                    }
                    if output.len() > 0 {
                        proof {
                            lemma_find_last(r0, byte);
                            if find_last(r0, byte) is Some {
                                let i = find_last(r0, byte).unwrap();
                                assert(r0[i] == byte);
                                assert(output@[i] != byte);
                            }
                            assert(rev_span_of(r0, byte, skip_len as int) == Some(
                                (r0, Seq::<u8>::empty()),
                            ));
                            assert(self.remaining() =~= Seq::<u8>::empty());
                        }
                        return Ok(Some(output));
                    } else {
                        return Ok(None);
                    }
                }
                let k: usize = if self.pos >= self.capacity as u64 {
                    self.capacity
                } else {
                    self.pos as usize
                };
                let newpos = self.pos - (k as u64);
                match self.source.read_at(newpos, k) {
                    Ok(v) => {
                        proof {
                            assert(self.source.contents().subrange(
                                0,
                                newpos + v@.len(),
                            ) =~= self.remaining());
                        }
                        self.pos = newpos;
                        self.buf = v;
                    },
                    Err(e) => {
                        return Err(e);
                    },
                }
            } else {
                let ghost cts = self.source.contents();
                let ghost p = self.pos as int;
                let ghost b = self.buf@;
                let ghost out0 = output@;
                match find_last_byte(&self.buf, byte) {
                    Some(i) => {
                        let blen = self.buf.len();
                        proof {
                            lemma_find_last(b, byte);
                        }
                        let tail = blen - i;
                        let mut span: Vec<u8>;
                        if skip_len <= tail {
                            span = vstd::slice::slice_to_vec(
                                vstd::slice::slice_subrange(self.buf.as_slice(), i + skip_len, blen),
                            );
                            span.append(&mut output);
                        } else {
                            let extra = skip_len - tail;
                            if extra >= output.len() {
                                span = Vec::new();
                            } else {
                                span = vstd::slice::slice_to_vec(
                                    vstd::slice::slice_subrange(
                                        output.as_slice(),
                                        extra,
                                        output.len(),
                                    ),
                                );
                            }
                        }
                        self.buf.truncate(i);
                        proof {
                            let g = p + i;
                            assert(r0.len() == p + b.len() + out0.len());
                            assert(r0[g] == byte);
                            assert forall|j: int| g < j < r0.len() implies r0[j] != byte by {
                                if j < p + b.len() {
                                    assert(r0[j] == b[j - p]);
                                } else {
                                    assert(r0[j] == out0[j - p - b.len()]);
                                }
                            }
                            lemma_find_last_unique(r0, byte, g);
                            assert(self.buf@ =~= cts.subrange(p, g));
                            assert(self.remaining() =~= r0.subrange(0, g));
                            if skip_len as int <= tail {
                                assert(span@ =~= r0.subrange(g + skip_len, r0.len() as int));
                            } else if skip_len - tail >= out0.len() {
                                assert(g + skip_len >= r0.len());
                                assert(span@ =~= Seq::<u8>::empty());
                            } else {
                                assert(span@ =~= r0.subrange(g + skip_len, r0.len() as int));
                            }
                        }
                        return Ok(Some(span));
                    },
                    None => {
                        proof {
                            lemma_find_last(b, byte);
                        }
                        Self::push_front(&mut output, self.buf.as_slice());
                        self.buf.clear();
                        proof {
                            assert(self.buf@ =~= cts.subrange(p, p));
                            assert(r0 =~= self.remaining() + output@);
                        }
                    },
                }
            }
        }
    }
}

/// Drains a scanner, collecting every span it yields, newest first.
pub fn scan_all<S: ByteSource>(rd: &mut RevReader<S>, byte: u8, skip_len: usize) -> (r: Result<
    Vec<Vec<u8>>,
    Error,
>)
    requires
        old(rd).wf(),
    ensures
        final(rd).wf(),
        old(rd).remaining().len() == 0 ==> (r matches Ok(spans) && spans@.len() == 0),
        r matches Ok(spans) ==> ({
            let model = rev_spans_of(old(rd).remaining(), byte, skip_len as int);
            &&& spans@.len() == model.len()
            &&& forall|i: int| 0 <= i < model.len() ==> spans@[i]@ == model[i]
        }),
{
    let ghost model = rev_spans_of(old(rd).remaining(), byte, skip_len as int);
    let mut spans: Vec<Vec<u8>> = Vec::new();
    loop
        invariant
            rd.wf(),
            model == rev_spans_of(old(rd).remaining(), byte, skip_len as int),
            spans@.len() <= model.len(),
            forall|i: int| 0 <= i < spans@.len() ==> spans@[i]@ == model[i],
            rev_spans_of(rd.remaining(), byte, skip_len as int) == model.subrange(
                spans@.len() as int,
                model.len() as int,
            ),
        decreases rd.remaining().len(),
    {
        let ghost rbefore = rd.remaining();
        let ghost k = spans@.len() as int;
        match rd.read_until(byte, skip_len) {
            Ok(Some(v)) => {
                proof {
                    lemma_rev_spans_step(rbefore, byte, skip_len as int);
                    lemma_find_last(rbefore, byte);
                    assert(rbefore.len() > 0) by {
                        if rbefore.len() == 0 {
                            assert(rev_span_of(rbefore, byte, skip_len as int) is None);
                        }
                    }
                    assert(rd.remaining().len() < rbefore.len());
                    let tailm = model.subrange(k, model.len() as int);
                    let rest = rev_spans_of(rd.remaining(), byte, skip_len as int);
                    assert(tailm == seq![v@] + rest);
                    assert(model[k] == tailm[0]);
                    assert(tailm[0] == v@);
                    assert forall|j: int| 0 <= j < rest.len() implies rest[j] == model.subrange(
                        k + 1,
                        model.len() as int,
                    )[j] by {
                        assert(rest[j] == tailm[j + 1]);
                        assert(tailm[j + 1] == model[k + 1 + j]);
                    }
                    assert(rest =~= model.subrange(k + 1, model.len() as int));
                }
                spans.push(v);
            },
            Ok(None) => {
                proof {
                    assert(rev_spans_of(rd.remaining(), byte, skip_len as int)
                        =~= Seq::<Seq<u8>>::empty());
                    assert(spans@.len() == model.len());
                }
                return Ok(spans);
            },
            Err(e) => {
                proof {
                    // a failed read means bytes were left to scan
                    if old(rd).remaining().len() == 0 {
                        lemma_rev_spans_nonempty(rbefore, byte, skip_len as int);
                    }
                }
                return Err(e);
            },
        }
    }
}

} // verus!
