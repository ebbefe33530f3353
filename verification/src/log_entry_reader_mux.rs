use vstd::prelude::*;
use crate::date_time::{ts_le, Timestamp};
use crate::direction::Direction;
use crate::error::Error;
use crate::log_entry::{ts_field_of, LogEntry, LogEntryView, LogLevel};
use crate::stream::RecordStream;

verus! {

broadcast use vstd::std_specs::vec::group_vec_axioms;

/// "No later than" on optional timestamps: a record without a parseable
/// timestamp sorts below all timestamped records.
pub open spec fn opt_ts_le(a: Option<Timestamp>, b: Option<Timestamp>) -> bool {
    match (a, b) {
        (Option::None, _) => true,
        (Option::Some(_), Option::None) => false,
        (Option::Some(x), Option::Some(y)) => ts_le(x, y),
    }
}

/// Order of emission for a direction: ascending forward, descending reverse.
pub open spec fn dir_le(dir: Direction, a: Option<Timestamp>, b: Option<Timestamp>) -> bool {
    match dir {
        Direction::Forward => opt_ts_le(a, b),
        Direction::Reverse => opt_ts_le(b, a),
    }
}

/// The timestamp a record sorts by.
pub open spec fn ts_of_view(e: LogEntryView) -> Option<Timestamp> {
    ts_field_of(e.contents)
}

/// Whether `c` strictly precedes `b` in emission order for a direction.
pub open spec fn dir_prefer(dir: Direction, c: Option<Timestamp>, b: Option<Timestamp>) -> bool {
    !dir_le(dir, b, c)
}

/// A sequence of records in emission order for a direction.
pub open spec fn sorted_dir(dir: Direction, s: Seq<LogEntryView>) -> bool {
    forall|i: int, j: int|
        0 <= i < j < s.len() ==> dir_le(dir, ts_of_view(s[i]), ts_of_view(s[j]))
}

/// The emission order is total.
pub proof fn lemma_dir_le_total(dir: Direction, a: Option<Timestamp>, b: Option<Timestamp>)
    ensures
        dir_le(dir, a, b) || dir_le(dir, b, a),
{
}

/// The emission order is transitive.
pub proof fn lemma_dir_le_trans(
    dir: Direction,
    a: Option<Timestamp>,
    b: Option<Timestamp>,
    c: Option<Timestamp>,
)
    requires
        dir_le(dir, a, b),
        dir_le(dir, b, c),
    ensures
        dir_le(dir, a, c),
{
}

/// The source the merge selects next, scanning from `i` with `best` the
/// choice so far: the live source whose next record is extremal for the
/// direction, the earliest such source on a tie.
pub open spec fn pick_from(
    pends: Seq<Seq<LogEntryView>>,
    dir: Direction,
    i: int,
    best: Option<int>,
) -> Option<int>
    decreases pends.len() - i,
{
    if i < 0 || i >= pends.len() {
        best
    } else {
        let best2 = if pends[i].len() == 0 {
            best
        } else {
            match best {
                Option::None => Some(i),
                Option::Some(b) => if dir_prefer(
                    dir,
                    ts_of_view(pends[i][0]),
                    ts_of_view(pends[b][0]),
                ) {
                    Some(i)
                } else {
                    best
                },
            }
        };
        pick_from(pends, dir, i + 1, best2)
    }
}

/// The source the merge selects next among all still-live sources.
pub open spec fn pick(pends: Seq<Seq<LogEntryView>>, dir: Direction) -> Option<int> {
    pick_from(pends, dir, 0, None)
}

/// The selected source is live and its next record is extremal.
pub proof fn lemma_pick_from(pends: Seq<Seq<LogEntryView>>, dir: Direction, i: int, best: Option<
    int,
>)
    requires
        0 <= i <= pends.len(),
        best matches Some(b) ==> 0 <= b < pends.len() && pends[b].len() > 0 && (forall|k: int|
            0 <= k < i && pends[k].len() > 0 ==> dir_le(
                dir,
                ts_of_view(pends[b][0]),
                ts_of_view(pends[k][0]),
            )),
        best is None ==> forall|k: int| 0 <= k < i ==> pends[k].len() == 0,
    ensures
        pick_from(pends, dir, i, best) matches Some(j) ==> 0 <= j < pends.len() && pends[j].len()
            > 0 && (forall|k: int|
            0 <= k < pends.len() && pends[k].len() > 0 ==> dir_le(
                dir,
                ts_of_view(pends[j][0]),
                ts_of_view(pends[k][0]),
            )),
        pick_from(pends, dir, i, best) is None ==> forall|k: int|
            0 <= k < pends.len() ==> pends[k].len() == 0,
    decreases pends.len() - i,
{
    if i < pends.len() {
        let best2 = if pends[i].len() == 0 {
            best
        } else {
            match best {
                Option::None => Some(i),
                Option::Some(b) => if dir_prefer(
                    dir,
                    ts_of_view(pends[i][0]),
                    ts_of_view(pends[b][0]),
                ) {
                    Some(i)
                } else {
                    best
                },
            }
        };
        if pends[i].len() > 0 {
            if best is Some {
                let b = best.unwrap();
                let tb = ts_of_view(pends[b][0]);
                let ti = ts_of_view(pends[i][0]);
                lemma_dir_le_total(dir, tb, ti);
                let b2 = best2.unwrap();
                assert forall|k: int| 0 <= k < i + 1 && pends[k].len() > 0 implies dir_le(
                    dir,
                    ts_of_view(pends[b2][0]),
                    ts_of_view(pends[k][0]),
                ) by {
                    if k < i {
                        if b2 == i {
                            lemma_dir_le_trans(dir, ti, tb, ts_of_view(pends[k][0]));
                        }
                    } else {
                        if b2 == b {
                            assert(dir_le(dir, tb, ti));
                        }
                    }
                }
            }
        }
        lemma_pick_from(pends, dir, i + 1, best2);
    }
}

/// Total number of pending records.
pub open spec fn sum_len(pends: Seq<Seq<LogEntryView>>) -> nat
    decreases pends.len(),
{
    if pends.len() == 0 {
        0
    } else {
        pends[0].len() + sum_len(pends.drop_first())
    }
}

/// Shortening one source shortens the total.
proof fn lemma_sum_len_update(pends: Seq<Seq<LogEntryView>>, j: int, v: Seq<LogEntryView>)
    requires
        0 <= j < pends.len(),
        v.len() < pends[j].len(),
    ensures
        sum_len(pends.update(j, v)) < sum_len(pends),
    decreases pends.len(),
{
    if j == 0 {
        assert(pends.update(0, v).drop_first() =~= pends.drop_first());
    } else {
        lemma_sum_len_update(pends.drop_first(), j - 1, v);
        assert(pends.update(j, v).drop_first() =~= pends.drop_first().update(j - 1, v));
        assert(pends.update(j, v)[0] == pends[0]);
    }
}

/// The continuous k-way merge of per-source record sequences: repeatedly
/// emit the extremal next record among the live sources.
pub open spec fn merge_outs(pends: Seq<Seq<LogEntryView>>, dir: Direction) -> Seq<LogEntryView>
    decreases sum_len(pends),
    via merge_outs_decreases
{
    match pick(pends, dir) {
        Option::Some(j) => if 0 <= j < pends.len() && pends[j].len() > 0 {
            seq![pends[j][0]] + merge_outs(pends.update(j, pends[j].drop_first()), dir)
        } else {
            Seq::empty()
        },
        Option::None => Seq::empty(),
    }
}

#[via_fn]
proof fn merge_outs_decreases(pends: Seq<Seq<LogEntryView>>, dir: Direction) {
    let p = pick(pends, dir);
    if p is Some {
        let j = p.unwrap();
        if 0 <= j < pends.len() && pends[j].len() > 0 {
            lemma_sum_len_update(pends, j, pends[j].drop_first());
        }
    }
}

/// Merging individually ordered sources yields a sequence ordered for the
/// direction, and every merged record comes no earlier than some source's
/// next record.
pub proof fn lemma_merge_outs_sorted(pends: Seq<Seq<LogEntryView>>, dir: Direction)
    requires
        forall|i: int| 0 <= i < pends.len() ==> sorted_dir(dir, #[trigger] pends[i]),
    ensures
        sorted_dir(dir, merge_outs(pends, dir)),
        forall|m: int|
            0 <= m < merge_outs(pends, dir).len() ==> exists|k: int|
                0 <= k < pends.len() && pends[k].len() > 0 && dir_le(
                    dir,
                    ts_of_view(pends[k][0]),
                    ts_of_view(#[trigger] merge_outs(pends, dir)[m]),
                ),
    decreases sum_len(pends),
{
    lemma_pick_from(pends, dir, 0, None);
    let p = pick(pends, dir);
    if p is Some {
        let j = p.unwrap();
        if 0 <= j < pends.len() && pends[j].len() > 0 {
            let h = pends[j][0];
            let pends2 = pends.update(j, pends[j].drop_first());
            assert forall|i: int| 0 <= i < pends2.len() implies sorted_dir(
                dir,
                #[trigger] pends2[i],
            ) by {
                if i == j {
                    let t = pends[j];
                    assert forall|a: int, b: int|
                        0 <= a < b < pends2[i].len() implies dir_le(
                        dir,
                        ts_of_view(pends2[i][a]),
                        ts_of_view(pends2[i][b]),
                    ) by {
                        assert(pends2[i][a] == t[a + 1]);
                        assert(pends2[i][b] == t[b + 1]);
                    }
                }
            }
            lemma_sum_len_update(pends, j, pends[j].drop_first());
            lemma_merge_outs_sorted(pends2, dir);
            let rest = merge_outs(pends2, dir);
            let whole = merge_outs(pends, dir);
            assert(whole == seq![h] + rest);
            // the head is no later than every source's next record, hence no
            // later than every merged record
            assert forall|m: int| 0 <= m < rest.len() implies dir_le(
                dir,
                ts_of_view(h),
                ts_of_view(rest[m]),
            ) by {
                let k = choose|k: int|
                    0 <= k < pends2.len() && pends2[k].len() > 0 && dir_le(
                        dir,
                        ts_of_view(pends2[k][0]),
                        ts_of_view(rest[m]),
                    );
                if k == j {
                    assert(pends2[j][0] == pends[j][1]);
                    assert(dir_le(dir, ts_of_view(pends[j][0]), ts_of_view(pends[j][1])));
                    lemma_dir_le_trans(
                        dir,
                        ts_of_view(h),
                        ts_of_view(pends2[k][0]),
                        ts_of_view(rest[m]),
                    );
                } else {
                    assert(pends2[k][0] == pends[k][0]);
                    lemma_dir_le_trans(
                        dir,
                        ts_of_view(h),
                        ts_of_view(pends2[k][0]),
                        ts_of_view(rest[m]),
                    );
                }
            }
            assert forall|a: int, b: int| 0 <= a < b < whole.len() implies dir_le(
                dir,
                ts_of_view(whole[a]),
                ts_of_view(whole[b]),
            ) by {
                if a > 0 {
                    assert(whole[a] == rest[a - 1]);
                    assert(whole[b] == rest[b - 1]);
                } else {
                    assert(whole[b] == rest[b - 1]);
                }
            }
            // every merged record is bounded by some source's next record
            assert forall|m: int| #![trigger whole[m]] 0 <= m < whole.len() implies exists|k: int|
                #![trigger pends[k]]
                0 <= k < pends.len() && pends[k].len() > 0 && dir_le(
                    dir,
                    ts_of_view(pends[k][0]),
                    ts_of_view(whole[m]),
                ) by {
                if m == 0 {
                    assert(dir_le(dir, ts_of_view(pends[j][0]), ts_of_view(whole[0])));
                } else {
                    assert(whole[m] == rest[m - 1]);
                    assert(dir_le(dir, ts_of_view(pends[j][0]), ts_of_view(rest[m - 1])));
                }
            }
        }
    }
}

/// A single-source merge reduces to that source's own sequence unchanged.
pub proof fn lemma_merge_single(s: Seq<LogEntryView>, dir: Direction)
    ensures
        merge_outs(seq![s], dir) == s,
    decreases s.len(),
{
    let pends = seq![s];
    if s.len() == 0 {
        assert(pick_from(pends, dir, 0, None) == pick_from(pends, dir, 1, None));
        assert(pick(pends, dir) is None);
        assert(merge_outs(pends, dir) =~= s);
    } else {
        assert(pick_from(pends, dir, 0, None) == pick_from(pends, dir, 1, Some(0int)));
        assert(pick(pends, dir) == Some(0int));
        lemma_merge_single(s.drop_first(), dir);
        assert(pends.update(0, s.drop_first()) =~= seq![s.drop_first()]);
        assert(merge_outs(pends, dir) =~= s);
    }
}

/// The merge emits every pending record exactly once: an empty source
/// contributes nothing.
pub proof fn lemma_merge_len(pends: Seq<Seq<LogEntryView>>, dir: Direction)
    ensures
        merge_outs(pends, dir).len() == sum_len(pends),
    decreases sum_len(pends),
{
    lemma_pick_from(pends, dir, 0, None);
    let p = pick(pends, dir);
    if p is Some {
        let j = p.unwrap();
        if 0 <= j < pends.len() && pends[j].len() > 0 {
            lemma_sum_len_update(pends, j, pends[j].drop_first());
            lemma_merge_len(pends.update(j, pends[j].drop_first()), dir);
            lemma_sum_len_parts(pends, j, pends[j].drop_first());
        }
    } else {
        lemma_sum_len_zero(pends);
    }
}

/// Chronological comparison on optional timestamps, an absent timestamp
/// lowest.
fn opt_ts_le_exec(a: &Option<Timestamp>, b: &Option<Timestamp>) -> (r: bool)
    ensures
        r == opt_ts_le(*a, *b),
{
    match (a, b) {
        (Option::None, _) => true,
        (Option::Some(_), Option::None) => false,
        (Option::Some(x), Option::Some(y)) => x.le(y),
    }
}

/// Whether a candidate strictly precedes the best so far in emission order.
fn dir_prefer_exec(direction: Direction, c: &Option<Timestamp>, b: &Option<Timestamp>) -> (r:
    bool)
    ensures
        r == dir_prefer(direction, *c, *b),
{
    match direction {
        Direction::Forward => !opt_ts_le_exec(b, c),
        Direction::Reverse => !opt_ts_le_exec(c, b),
    }
}

/// The records a primed source still holds: its current record, then the
/// rest.
pub open spec fn primed_pend<I: RecordStream>(it: I) -> Seq<LogEntryView> {
    match it.cur() {
        Option::Some(e) => seq![e] + it.outs(),
        Option::None => Seq::empty(),
    }
}

/// Continuous k-way merge of per-source record sequences into one globally
/// time-ordered sequence, directionally symmetric.
pub struct LogEntryReaderMux<I> {
    input_iters: Vec<I>,
    curr: Option<usize>,
    direction: Direction,
    primed: bool,
    failed: bool,
}

impl<I: RecordStream> LogEntryReaderMux<I> {
    /// The records source `i` still holds, its current record included
    /// unless that record is the one being emitted.
    pub closed spec fn pend_at(&self, i: int) -> Seq<LogEntryView> {
        if !self.primed || (self.curr matches Some(c) && c == i) {
            self.input_iters@[i].outs()
        } else {
            primed_pend(self.input_iters@[i])
        }
    }

    /// The per-source pending sequences the merge still selects from.
    pub closed spec fn pends(&self) -> Seq<Seq<LogEntryView>> {
        Seq::new(self.input_iters@.len(), |i: int| self.pend_at(i))
    }

    /// The direction the merge orders by.
    pub closed spec fn dir(&self) -> Direction {
        self.direction
    }

    /// Whether an I/O fault has halted production.
    pub closed spec fn has_failed(&self) -> bool {
        self.failed
    }

    /// Every source is coherent; a primed, exhausted source holds nothing
    /// more; the selected source is live.
    pub closed spec fn wf(&self) -> bool {
        self.failed || {
            &&& forall|i: int|
                0 <= i < self.input_iters@.len() ==> (#[trigger] self.input_iters@[i]).inv()
            &&& (!self.primed ==> self.curr is None && forall|i: int|
                0 <= i < self.input_iters@.len() ==> (#[trigger] self.input_iters@[i]).cur()
                    is None)
            &&& (self.primed ==> forall|i: int|
                0 <= i < self.input_iters@.len() ==> ((#[trigger] self.input_iters@[i]).cur()
                    is None ==> self.input_iters@[i].outs().len() == 0))
            &&& (self.curr matches Some(c) ==> self.primed && (c as int)
                < self.input_iters@.len() && self.input_iters@[c as int].cur() is Some)
        }
    }

    /// A merge of the given sources, none of them yet advanced, ordered for
    /// the given direction.
    pub fn new(input_iters: Vec<I>, direction: Direction) -> (r: LogEntryReaderMux<I>)
        requires
            forall|i: int|
                0 <= i < input_iters@.len() ==> (#[trigger] input_iters@[i]).inv()
                    && input_iters@[i].cur() is None,
        ensures
            r.inv(),
            r.cur() is None,
            !r.has_failed(),
            r.dir() == direction,
            r.outs() == merge_outs(
                Seq::new(input_iters@.len(), |i: int| input_iters@[i].outs()),
                direction,
            ),
    {
        let r = LogEntryReaderMux {
            input_iters,
            curr: None,
            direction,
            primed: false,
            failed: false,
        };
        proof {
            assert(r.pends() =~= Seq::new(r.input_iters@.len(), |i: int| r.input_iters@[i].outs()));
        }
        r
    }
}

impl<I: RecordStream> RecordStream for LogEntryReaderMux<I> {
    closed spec fn outs(&self) -> Seq<LogEntryView> {
        if self.failed {
            Seq::empty()
        } else {
            merge_outs(self.pends(), self.direction)
        }
    }

    closed spec fn cur(&self) -> Option<LogEntryView> {
        if self.failed {
            None
        } else {
            match self.curr {
                Option::Some(c) => self.input_iters@[c as int].cur(),
                Option::None => None,
            }
        }
    }

    closed spec fn inv(&self) -> bool {
        self.wf()
    }

    fn advance(&mut self) -> (r: Result<(), Error>) {
        if self.failed {
            return Err(Error::Io);
        }
        let ghost pends0 = self.pends();
        let ghost dir = self.direction;
        let n = self.input_iters.len();
        if let Some(c) = self.curr {
            let ghost old_c = self.input_iters@[c as int];
            self.curr = None;
            let it = &mut self.input_iters[c];
            match it.advance() {
                Ok(()) => {},
                Err(e) => {
                    self.failed = true;
                    return Err(e);
                },
            }
            proof {
                assert forall|i: int| 0 <= i < n implies self.pends()[i] == pends0[i] by {
                    if i == c {
                        if old_c.outs().len() == 0 {
                            assert(self.pends()[i] =~= pends0[i]);
                        } else {
                            assert(primed_pend(self.input_iters@[i]) =~= old_c.outs());
                        }
                    }
                }
                assert(self.pends() =~= pends0);
            }
        } else if !self.primed {
            let ghost inputs0 = self.input_iters@;
            proof {
                assert(pends0 =~= Seq::new(inputs0.len(), |i: int| inputs0[i].outs()));
            }
            let mut k: usize = 0;
            while k < n
                invariant
                    0 <= k <= n,
                    n == self.input_iters@.len(),
                    inputs0.len() == n,
                    !self.primed,
                    self.curr is None,
                    !self.failed,
                    self.direction == dir,
                    pends0 == Seq::new(inputs0.len(), |i: int| inputs0[i].outs()),
                    forall|i: int|
                        k <= i < n ==> self.input_iters@[i] == inputs0[i],
                    forall|i: int|
                        0 <= i < n ==> (#[trigger] self.input_iters@[i]).inv(),
                    forall|i: int|
                        k <= i < n ==> (#[trigger] self.input_iters@[i]).cur() is None,
                    forall|i: int|
                        0 <= i < k ==> ((#[trigger] self.input_iters@[i]).cur() is None
                            ==> self.input_iters@[i].outs().len() == 0),
                    forall|i: int|
                        0 <= i < k ==> primed_pend(#[trigger] self.input_iters@[i]) == pends0[i],
                decreases n - k,
            {
                let ghost old_k = self.input_iters@[k as int];
                let it = &mut self.input_iters[k];
                match it.advance() {
                    Ok(()) => {},
                    Err(e) => {
                        self.failed = true;
                        return Err(e);
                    },
                }
                proof {
                    if old_k.outs().len() == 0 {
                        assert(primed_pend(self.input_iters@[k as int]) =~= old_k.outs());
                    } else {
                        assert(primed_pend(self.input_iters@[k as int]) =~= old_k.outs());
                    }
                }
                k += 1;
            }
            self.primed = true;
            proof {
                assert(self.pends() =~= pends0);
            }
        }
        // the selected source, if any, has moved on; recompute the selection
        // among the still-live sources
        let ghost pmid = self.pends();
        let mut best: Option<usize> = None;
        let mut best_ts: Option<Timestamp> = None;
        let mut i: usize = 0;
        while i < n
            invariant
                0 <= i <= n,
                n == self.input_iters@.len(),
                !self.failed,
                self.primed,
                self.curr is None,
                self.direction == dir,
                self.pends() == pmid,
                pmid.len() == n,
                self.wf(),
                forall|q: int|
                    0 <= q < n ==> (#[trigger] self.input_iters@[q]).inv(),
                forall|q: int|
                    0 <= q < n ==> ((#[trigger] self.input_iters@[q]).cur() is None
                        ==> self.input_iters@[q].outs().len() == 0),
                pick(pmid, dir) == pick_from(pmid, dir, i as int, match best {
                    Option::Some(b) => Some(b as int),
                    Option::None => None,
                }),
                best matches Some(b) ==> (b as int) < n && pmid[b as int].len() > 0
                    && self.input_iters@[b as int].cur() is Some && best_ts == ts_of_view(
                    pmid[b as int][0],
                ),
                best is None ==> forall|q: int| 0 <= q < i ==> pmid[q].len() == 0,
            decreases n - i,
        {
            let ghost pend_i = pmid[i as int];
            let it = &mut self.input_iters[i];
            let ts_i = it.current_timestamp();
            proof {
                assert(self.pends() =~= pmid);
            }
            match ts_i {
                Option::None => {
                    proof {
                        assert(pend_i.len() == 0);
                    }
                },
                Option::Some(t) => {
                    proof {
                        assert(pend_i[0] == self.input_iters@[i as int].cur().unwrap());
                        assert(t == ts_of_view(pend_i[0]));
                    }
                    match best {
                        Option::None => {
                            best = Some(i);
                            best_ts = t;
                        },
                        Option::Some(_) => {
                            if dir_prefer_exec(self.direction, &t, &best_ts) {
                                best = Some(i);
                                best_ts = t;
                            }
                        },
                    }
                },
            }
            i += 1;
        }
        proof {
            lemma_pick_from(pmid, dir, 0, None);
        }
        self.curr = best;
        match best {
            Option::Some(j) => {
                proof {
                    let ghost jj = j as int;
                    assert(pick(pmid, dir) == Some(jj));
                    assert forall|q: int| 0 <= q < n implies self.pends()[q] == pmid.update(
                        jj,
                        pmid[jj].drop_first(),
                    )[q] by {
                        if q == jj {
                            assert(self.pend_at(q) == self.input_iters@[q].outs());
                            assert(pmid[q] =~= primed_pend(self.input_iters@[q]));
                            assert(self.input_iters@[q].outs() =~= pmid[q].drop_first());
                        }
                    }
                    assert(self.pends() =~= pmid.update(jj, pmid[jj].drop_first()));
                    assert(merge_outs(pmid, dir) == seq![pmid[jj][0]] + merge_outs(
                        self.pends(),
                        dir,
                    ));
                    assert(self.cur() == Some(pmid[jj][0]));
                    assert(merge_outs(self.pends(), dir) =~= merge_outs(pmid, dir).drop_first());
                }
                Ok(())
            },
            Option::None => {
                proof {
                    assert(forall|q: int| 0 <= q < n ==> pmid[q].len() == 0);
                    assert(merge_outs(pmid, dir).len() == 0) by {
                        lemma_merge_len(pmid, dir);
                        lemma_sum_len_zero(pmid);
                    }
                }
                Ok(())
            },
        }
    }

    fn current(&self) -> (r: Option<&LogEntry>) {
        if self.failed {
            return None;
        }
        match self.curr {
            Option::Some(c) => self.input_iters[c].current(),
            Option::None => None,
        }
    }

    fn current_timestamp(&mut self) -> (r: Option<Option<Timestamp>>) {
        if self.failed {
            return None;
        }
        match self.curr {
            Option::Some(c) => {
                let ghost pends0 = self.pends();
                let it = &mut self.input_iters[c];
                let r = it.current_timestamp();
                proof {
                    assert(self.pends() =~= pends0);
                }
                r
            },
            Option::None => None,
        }
    }

    fn current_level(&mut self) -> (r: Option<Option<LogLevel>>) {
        if self.failed {
            return None;
        }
        match self.curr {
            Option::Some(c) => {
                let ghost pends0 = self.pends();
                let it = &mut self.input_iters[c];
                let r = it.current_level();
                proof {
                    assert(self.pends() =~= pends0);
                }
                r
            },
            Option::None => None,
        }
    }
}

/// An index into the sources with one removed, carried back to the full
/// list: indices at or past the removed one shift up.
pub open spec fn lift_past(j: Option<int>, z: int) -> Option<int> {
    match j {
        Option::Some(b) => if b < z {
            Some(b)
        } else {
            Some(b + 1)
        },
        Option::None => None,
    }
}

/// Scanning past an empty source selects as if it were not there.
proof fn lemma_pick_from_remove(
    pends: Seq<Seq<LogEntryView>>,
    dir: Direction,
    z: int,
    i: int,
    best: Option<int>,
)
    requires
        0 <= z < pends.len(),
        pends[z].len() == 0,
        0 <= i <= pends.len(),
        best matches Some(b) ==> 0 <= b < pends.len() && b != z,
    ensures
        pick_from(pends, dir, i, best) == lift_past(
            pick_from(
                pends.remove(z),
                dir,
                if i <= z {
                    i
                } else {
                    i - 1
                },
                match best {
                    Option::Some(b) => if b < z {
                        Some(b)
                    } else {
                        Some(b - 1)
                    },
                    Option::None => None,
                },
            ),
            z,
        ),
    decreases pends.len() - i,
{
    let r = pends.remove(z);
    let best_r: Option<int> = match best {
        Option::Some(b) => if b < z {
            Some(b)
        } else {
            Some(b - 1)
        },
        Option::None => None,
    };
    assert(r.len() == pends.len() - 1);
    assert(forall|k: int| 0 <= k < z ==> r[k] == pends[k]);
    assert(forall|k: int| z <= k < r.len() ==> r[k] == pends[k + 1]);
    if i >= pends.len() {
        assert(best == lift_past(best_r, z));
    } else if i == z {
        assert(pends[i].len() == 0);
        assert(pick_from(pends, dir, i, best) == pick_from(pends, dir, i + 1, best));
        if i + 1 <= pends.len() {
            lemma_pick_from_remove(pends, dir, z, i + 1, best);
        }
    } else {
        let e = pends[i];
        let er = if i < z {
            r[i]
        } else {
            r[i - 1]
        };
        assert(e == er);
        let best2 = if pends[i].len() == 0 {
            best
        } else {
            match best {
                Option::None => Some(i),
                Option::Some(b) => if dir_prefer(
                    dir,
                    ts_of_view(pends[i][0]),
                    ts_of_view(pends[b][0]),
                ) {
                    Some(i)
                } else {
                    best
                },
            }
        };
        assert(best2 matches Some(b) ==> 0 <= b < pends.len() && b != z);
        lemma_pick_from_remove(pends, dir, z, i + 1, best2);
    }
}

/// A source with zero records contributes nothing: merging with it is
/// merging without it.
pub proof fn lemma_merge_skips_empty(pends: Seq<Seq<LogEntryView>>, dir: Direction, z: int)
    requires
        0 <= z < pends.len(),
        pends[z].len() == 0,
    ensures
        merge_outs(pends, dir) == merge_outs(pends.remove(z), dir),
    decreases sum_len(pends),
{
    let r = pends.remove(z);
    assert(forall|k: int| 0 <= k < z ==> r[k] == pends[k]);
    assert(forall|k: int| z <= k < r.len() ==> r[k] == pends[k + 1]);
    lemma_pick_from_remove(pends, dir, z, 0, None);
    assert(pick(pends, dir) == lift_past(pick(r, dir), z));
    lemma_pick_from(pends, dir, 0, None);
    lemma_pick_from(r, dir, 0, None);
    match pick(r, dir) {
        Option::None => {
            assert(merge_outs(pends, dir) =~= merge_outs(r, dir));
        },
        Option::Some(jr) => {
            let j = if jr < z {
                jr
            } else {
                jr + 1
            };
            assert(pick(pends, dir) == Some(j));
            assert(pends[j] == r[jr]);
            let pends2 = pends.update(j, pends[j].drop_first());
            let r2 = r.update(jr, r[jr].drop_first());
            assert(pends2[z].len() == 0);
            assert(r2 =~= pends2.remove(z)) by {
                assert(forall|k: int| 0 <= k < z ==> pends2.remove(z)[k] == pends2[k]);
                assert(forall|k: int|
                    z <= k < r2.len() ==> pends2.remove(z)[k] == pends2[k + 1]);
            }
            lemma_sum_len_update(pends, j, pends[j].drop_first());
            lemma_merge_skips_empty(pends2, dir, z);
            assert(merge_outs(pends, dir) =~= merge_outs(r, dir));
        },
    }
}

/// With every source empty the total is zero.
proof fn lemma_sum_len_zero(pends: Seq<Seq<LogEntryView>>)
    requires
        forall|k: int| 0 <= k < pends.len() ==> pends[k].len() == 0,
    ensures
        sum_len(pends) == 0,
    decreases pends.len(),
{
    if pends.len() > 0 {
        lemma_sum_len_zero(pends.drop_first());
        assert(forall|k: int|
            0 <= k < pends.drop_first().len() ==> pends.drop_first()[k] == pends[k + 1]);
    }
}

/// Dropping one record from one source drops one from the total.
proof fn lemma_sum_len_parts(pends: Seq<Seq<LogEntryView>>, j: int, v: Seq<LogEntryView>)
    requires
        0 <= j < pends.len(),
        pends[j].len() > 0,
        v == pends[j].drop_first(),
    ensures
        sum_len(pends.update(j, v)) + 1 == sum_len(pends),
    decreases pends.len(),
{
    if j == 0 {
        assert(pends.update(0, v).drop_first() =~= pends.drop_first());
    } else {
        lemma_sum_len_parts(pends.drop_first(), j - 1, v);
        assert(pends.update(j, v).drop_first() =~= pends.drop_first().update(j - 1, v));
        assert(pends.update(j, v)[0] == pends[0]);
    }
}

} // verus!
