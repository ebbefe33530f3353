use vstd::prelude::*;
use crate::date_time::{ts_le, Timestamp};
use crate::direction::Direction;
use crate::error::Error;
use crate::log_entry::{level_of, level_ordinal, ts_field_of, LogEntry, LogEntryView, LogLevel};
use crate::log_entry_reader_mux::{lemma_dir_le_trans, dir_le, sorted_dir, ts_of_view};
use crate::stream::RecordStream;

verus! {

broadcast use vstd::std_specs::vec::group_vec_axioms;

/// The optional time window, minimum severity and substring a record
/// sequence is cut down by.
#[derive(Clone)]
pub struct FilteringOptions {
    pub since: Option<Timestamp>,
    pub until: Option<Timestamp>,
    pub contains: Option<String>,
    pub min_level: Option<LogLevel>,
}

/// The filter configuration as plain values, the substring as its bytes.
pub ghost struct FilterSpec {
    pub since: Option<Timestamp>,
    pub until: Option<Timestamp>,
    pub contains: Option<Seq<u8>>,
    pub min_level: Option<LogLevel>,
}

impl View for FilteringOptions {
    type V = FilterSpec;

    open spec fn view(&self) -> FilterSpec {
        FilterSpec {
            since: self.since,
            until: self.until,
            contains: match self.contains {
                Option::Some(s) => Some(vstd::utf8::encode_utf8(s@)),
                Option::None => None,
            },
            min_level: self.min_level,
        }
    }
}

/// Whether `p` occurs contiguously in `h`; an empty `p` always occurs.
pub open spec fn has_sub(h: Seq<u8>, p: Seq<u8>) -> bool {
    exists|i: int| 0 <= i <= h.len() - p.len() && #[trigger] h.subrange(i, i + p.len()) == p
}

/// A record passes the severity filter when no minimum is configured, the
/// record has no parseable severity, or its severity is at least the
/// minimum.
pub open spec fn sev_pass(min_level: Option<LogLevel>, e: LogEntryView) -> bool {
    match (min_level, level_of(e.contents)) {
        (Option::Some(m), Option::Some(l)) => level_ordinal(l) >= level_ordinal(m),
        _ => true,
    }
}

/// A record passes the substring filter when none is configured or its raw
/// bytes contain it, byte-exact.
pub open spec fn sub_pass(contains: Option<Seq<u8>>, e: LogEntryView) -> bool {
    match contains {
        Option::Some(p) => has_sub(e.contents, p),
        Option::None => true,
    }
}

/// The leading records the window skips: timestamped before `since` going
/// forward, not yet before `until` going backward.  Records lacking a
/// timestamp never trigger the edge.
pub open spec fn skip_pred(f: FilterSpec, dir: Direction, t: Option<Timestamp>) -> bool {
    match t {
        Option::Some(ts) => match dir {
            Direction::Forward => f.since matches Some(s) && !ts_le(s, ts),
            Direction::Reverse => f.until matches Some(u) && ts_le(u, ts),
        },
        Option::None => false,
    }
}

/// The record at which production stops entirely: timestamped at or past
/// `until` going forward, before `since` going backward.  Records lacking a
/// timestamp never trigger the edge.
pub open spec fn stop_pred(f: FilterSpec, dir: Direction, t: Option<Timestamp>) -> bool {
    match t {
        Option::Some(ts) => match dir {
            Direction::Forward => f.until matches Some(u) && ts_le(u, ts),
            Direction::Reverse => f.since matches Some(s) && !ts_le(s, ts),
        },
        Option::None => false,
    }
}

/// What the pipeline emits from a record sequence: a monotonic prefix skip,
/// a hard stop, then the per-record severity and substring filters.
pub open spec fn filter_outs(
    s: Seq<LogEntryView>,
    f: FilterSpec,
    dir: Direction,
    skipping: bool,
) -> Seq<LogEntryView>
    decreases s.len(),
{
    if s.len() == 0 {
        Seq::empty()
    } else {
        let e = s[0];
        let t = ts_field_of(e.contents);
        if skipping && skip_pred(f, dir, t) {
            filter_outs(s.drop_first(), f, dir, true)
        } else if stop_pred(f, dir, t) {
            Seq::empty()
        } else if sev_pass(f.min_level, e) && sub_pass(f.contains, e) {
            seq![e] + filter_outs(s.drop_first(), f, dir, false)
        } else {
            filter_outs(s.drop_first(), f, dir, false)
        }
    }
}

/// Whether a record's timestamp lies in the configured window,
/// boundary-inclusive at `since`, boundary-exclusive at `until`; a record
/// lacking a timestamp passes untouched.
pub open spec fn in_window(f: FilterSpec, e: LogEntryView) -> bool {
    match ts_field_of(e.contents) {
        Option::Some(t) => (f.since matches Some(s) ==> ts_le(s, t)) && (f.until matches Some(u)
            ==> !ts_le(u, t)),
        Option::None => true,
    }
}

/// Whether a record passes every per-record filter.
pub open spec fn pass_all(f: FilterSpec, e: LogEntryView) -> bool {
    in_window(f, e) && sev_pass(f.min_level, e) && sub_pass(f.contains, e)
}

/// The records of `s` that pass every per-record filter, in order.
pub open spec fn window_filtered(s: Seq<LogEntryView>, f: FilterSpec) -> Seq<LogEntryView>
    decreases s.len(),
{
    if s.len() == 0 {
        Seq::empty()
    } else if pass_all(f, s[0]) {
        seq![s[0]] + window_filtered(s.drop_first(), f)
    } else {
        window_filtered(s.drop_first(), f)
    }
}

/// When every record fails, nothing is emitted.
proof fn lemma_window_filtered_empty(s: Seq<LogEntryView>, f: FilterSpec)
    requires
        forall|i: int| 0 <= i < s.len() ==> !pass_all(f, #[trigger] s[i]),
    ensures
        window_filtered(s, f).len() == 0,
    decreases s.len(),
{
    if s.len() > 0 {
        lemma_window_filtered_empty(s.drop_first(), f);
        assert(forall|i: int|
            0 <= i < s.drop_first().len() ==> s.drop_first()[i] == s[i + 1]);
    }
}

/// Over a per-direction ordered, fully timestamped sequence, the stateful
/// skip and stop edges act as a pure per-record window filter.
pub proof fn lemma_filter_pure(s: Seq<LogEntryView>, f: FilterSpec, dir: Direction, skipping: bool)
    requires
        sorted_dir(dir, s),
        forall|i: int| 0 <= i < s.len() ==> ts_field_of((#[trigger] s[i]).contents) is Some,
        !skipping ==> forall|i: int|
            0 <= i < s.len() ==> !skip_pred(f, dir, ts_field_of((#[trigger] s[i]).contents)),
    ensures
        filter_outs(s, f, dir, skipping) == window_filtered(s, f),
    decreases s.len(),
{
    if s.len() > 0 {
        let e = s[0];
        let t = ts_field_of(e.contents);
        let tail = s.drop_first();
        assert(forall|i: int| 0 <= i < tail.len() ==> tail[i] == s[i + 1]);
        assert(sorted_dir(dir, tail));
        if skipping && skip_pred(f, dir, t) {
            assert(!in_window(f, e));
            lemma_filter_pure(tail, f, dir, true);
        } else if stop_pred(f, dir, t) {
            assert forall|i: int| 0 <= i < tail.len() implies !pass_all(f, #[trigger] tail[i]) by {
                let t2 = ts_field_of(tail[i].contents);
                assert(tail[i] == s[i + 1]);
                assert(dir_le(dir, ts_of_view(s[0]), ts_of_view(s[i + 1])));
                match dir {
                    Direction::Forward => {
                        let u = f.until.unwrap();
                        lemma_dir_le_trans(Direction::Forward, Some(u), t, t2);
                    },
                    Direction::Reverse => {
                        let s0 = f.since.unwrap();
                        if ts_le(s0, t2.unwrap()) {
                            lemma_dir_le_trans(Direction::Forward, Some(s0), t2, t);
                        }
                    },
                }
            }
            assert(!pass_all(f, e));
            lemma_window_filtered_empty(tail, f);
            assert(window_filtered(s, f) =~= Seq::<LogEntryView>::empty());
        } else {
            assert forall|i: int| 0 <= i < tail.len() implies !skip_pred(
                f,
                dir,
                ts_field_of((#[trigger] tail[i]).contents),
            ) by {
                let t2 = ts_field_of(tail[i].contents);
                assert(tail[i] == s[i + 1]);
                assert(dir_le(dir, ts_of_view(s[0]), ts_of_view(s[i + 1])));
                if skip_pred(f, dir, t2) {
                    match dir {
                        Direction::Forward => {
                            let s0 = f.since.unwrap();
                            if !skipping {
                                assert(!skip_pred(f, dir, t));
                            }
                            lemma_dir_le_trans(Direction::Forward, Some(s0), t, t2);
                        },
                        Direction::Reverse => {
                            let u = f.until.unwrap();
                            if !skipping {
                                assert(!skip_pred(f, dir, t));
                            }
                            lemma_dir_le_trans(Direction::Forward, Some(u), t2, t);
                        },
                    }
                }
            }
            lemma_filter_pure(tail, f, dir, false);
            assert(in_window(f, e));
        }
    }
}

/// What passes the filters is emitted in the stream's own order: ascending
/// forward, descending backward.
pub proof fn lemma_window_filtered_sorted(s: Seq<LogEntryView>, f: FilterSpec, dir: Direction)
    requires
        sorted_dir(dir, s),
    ensures
        sorted_dir(dir, window_filtered(s, f)),
    decreases s.len(),
{
    if s.len() > 0 {
        let tail = s.drop_first();
        assert(forall|i: int| 0 <= i < tail.len() ==> tail[i] == s[i + 1]);
        assert(sorted_dir(dir, tail));
        lemma_window_filtered_sorted(tail, f, dir);
        if pass_all(f, s[0]) {
            let w = window_filtered(s, f);
            let wt = window_filtered(tail, f);
            assert forall|a: int, b: int| 0 <= a < b < w.len() implies dir_le(
                dir,
                ts_of_view(w[a]),
                ts_of_view(w[b]),
            ) by {
                if a == 0 {
                    assert(w[b] == wt[b - 1]);
                    lemma_window_filtered_mem(tail, f, wt[b - 1]);
                    assert(tail.contains(wt[b - 1]));
                    let k = choose|k: int| 0 <= k < tail.len() && tail[k] == wt[b - 1];
                    assert(dir_le(dir, ts_of_view(s[0]), ts_of_view(s[k + 1])));
                } else {
                    assert(w[a] == wt[a - 1]);
                    assert(w[b] == wt[b - 1]);
                }
            }
        }
    }
}

/// A record is emitted exactly when it occurs and passes every per-record
/// filter.
pub proof fn lemma_window_filtered_mem(s: Seq<LogEntryView>, f: FilterSpec, e: LogEntryView)
    ensures
        window_filtered(s, f).contains(e) <==> s.contains(e) && pass_all(f, e),
    decreases s.len(),
{
    if s.len() > 0 {
        lemma_window_filtered_mem(s.drop_first(), f, e);
        if s.contains(e) && pass_all(f, e) {
            let i = choose|i: int| 0 <= i < s.len() && s[i] == e;
            if i > 0 {
                assert(s.drop_first()[i - 1] == e);
                assert(s.drop_first().contains(e));
            }
            if pass_all(f, s[0]) {
                if s[0] == e {
                    assert(window_filtered(s, f)[0] == e);
                } else {
                    let j = choose|j: int|
                        0 <= j < window_filtered(s.drop_first(), f).len() && window_filtered(
                            s.drop_first(),
                            f,
                        )[j] == e;
                    assert(window_filtered(s, f)[j + 1] == e);
                }
            }
        }
        if window_filtered(s, f).contains(e) {
            let w = window_filtered(s, f);
            let j = choose|j: int| 0 <= j < w.len() && w[j] == e;
            if pass_all(f, s[0]) {
                if j > 0 {
                    assert(window_filtered(s.drop_first(), f)[j - 1] == e);
                    assert(window_filtered(s.drop_first(), f).contains(e));
                    assert(s.drop_first().contains(e));
                    let i = choose|i: int|
                        0 <= i < s.drop_first().len() && s.drop_first()[i] == e;
                    assert(s[i + 1] == e);
                }
            } else {
                assert(window_filtered(s.drop_first(), f).contains(e));
                assert(s.drop_first().contains(e));
                let i = choose|i: int| 0 <= i < s.drop_first().len() && s.drop_first()[i] == e;
                assert(s[i + 1] == e);
            }
        }
    }
}

/// Given `since` and `until`, over a per-direction ordered, fully
/// timestamped sequence and no other filters, a record with timestamp `t`
/// is emitted exactly when `since <= t < until`, in either direction.
pub proof fn lemma_time_window(
    s: Seq<LogEntryView>,
    since: Timestamp,
    until: Timestamp,
    dir: Direction,
    e: LogEntryView,
    t: Timestamp,
)
    requires
        sorted_dir(dir, s),
        forall|i: int| 0 <= i < s.len() ==> ts_field_of((#[trigger] s[i]).contents) is Some,
        ts_field_of(e.contents) == Some(t),
    ensures
        ({
            let f = FilterSpec {
                since: Some(since),
                until: Some(until),
                contains: None,
                min_level: None,
            };
            filter_outs(s, f, dir, true).contains(e) <==> s.contains(e) && ts_le(since, t)
                && !ts_le(until, t)
        }),
{
    let f = FilterSpec { since: Some(since), until: Some(until), contains: None, min_level: None };
    lemma_filter_pure(s, f, dir, true);
    lemma_window_filtered_mem(s, f, e);
}

/// Relies on subslice's `SubsliceExt::find` for byte slices: the index of
/// the first occurrence of `needle` in `haystack`, an empty needle matching
/// at the front.
#[verifier::external_body]
fn find_subslice(haystack: &[u8], needle: &[u8]) -> (r: Option<usize>)
    ensures
        r matches Some(i) ==> i + needle@.len() <= haystack@.len() && haystack@.subrange(
            i as int,
            i + needle@.len(),
        ) == needle@ && (forall|k: int|
            0 <= k < i ==> #[trigger] haystack@.subrange(k, k + needle@.len()) != needle@),
        r is None ==> !has_sub(haystack@, needle@),
{
    subslice::SubsliceExt::find(haystack, needle)
}

/// Composes the time-window cut, the minimum-severity filter and the
/// substring filter over a record sequence; the `until` edge forward (or the
/// `since` edge backward) truncates the stream entirely.
pub struct FilteringStream<I> {
    input: I,
    options: FilteringOptions,
    direction: Direction,
    skipping: bool,
    stopped: bool,
    live: bool,
}

impl<I: RecordStream> FilteringStream<I> {
    /// The stream's coherence: the inner stream is coherent and a live
    /// current record is the inner one.
    pub closed spec fn wf(&self) -> bool {
        &&& self.input.inv()
        &&& (self.live ==> !self.stopped && self.input.cur() is Some)
    }

    /// The filter configuration as plain values.
    pub closed spec fn spec_of(&self) -> FilterSpec {
        self.options@
    }

    /// The direction the window edges follow.
    pub closed spec fn dir(&self) -> Direction {
        self.direction
    }
}

/// The filtered view of a record sequence: `input` cut down by the given
/// options, with the skip edge and the stop edge oriented by `direction`.
pub fn filtering_iter<I: RecordStream>(
    input: I,
    options: FilteringOptions,
    direction: Direction,
) -> (r: FilteringStream<I>)
    requires
        input.inv(),
        input.cur() is None,
    ensures
        r.inv(),
        r.cur() is None,
        r.spec_of() == options@,
        r.dir() == direction,
        r.outs() == filter_outs(input.outs(), options@, direction, true),
{
    FilteringStream {
        input,
        options,
        direction,
        skipping: true,
        stopped: false,
        live: false,
    }
}

impl<I: RecordStream> RecordStream for FilteringStream<I> {
    closed spec fn outs(&self) -> Seq<LogEntryView> {
        if self.stopped {
            Seq::empty()
        } else {
            filter_outs(self.input.outs(), self.options@, self.direction, self.skipping)
        }
    }

    closed spec fn cur(&self) -> Option<LogEntryView> {
        if self.live {
            self.input.cur()
        } else {
            None
        }
    }

    closed spec fn inv(&self) -> bool {
        self.wf()
    }

    fn advance(&mut self) -> (r: Result<(), Error>) {
        let ghost f = self.options@;
        let ghost dir = self.direction;
        let ghost outs0 = self.outs();
        self.live = false;
        if self.stopped {
            return Ok(());
        }
        loop
            invariant_except_break
                self.wf(),
                !self.stopped,
                !self.live,
                f == self.options@,
                dir == self.direction,
                self.options == old(self).options,
                self.direction == old(self).direction,
                outs0 == filter_outs(self.input.outs(), f, dir, self.skipping),
            ensures
                self.wf(),
                f == self.options@,
                dir == self.direction,
                self.options == old(self).options,
                self.direction == old(self).direction,
                self.live ==> (self.input.cur() matches Some(e) && outs0 == seq![e] + filter_outs(
                    self.input.outs(),
                    f,
                    dir,
                    false,
                ) && !self.stopped && !self.skipping),
                !self.live ==> outs0.len() == 0 && (self.stopped || filter_outs(
                    self.input.outs(),
                    f,
                    dir,
                    self.skipping,
                ).len() == 0),
            decreases self.input.outs().len(),
        {
            let ghost in_outs = self.input.outs();
            let ghost sk = self.skipping;
            match self.input.advance() {
                Ok(()) => {},
                Err(e) => {
                    self.stopped = true;
                    return Err(e);
                },
            }
            let t = match self.input.current_timestamp() {
                Option::None => {
                    proof {
                        assert(in_outs.len() == 0);
                    }
                    break;
                },
                Option::Some(t) => t,
            };
            let ghost e = in_outs[0];
            proof {
                assert(self.input.cur() == Some(e));
                assert(t == ts_field_of(e.contents));
            }
            if self.skipping && skip_pred_exec(&self.options, self.direction, &t) {
                proof {
                    assert(in_outs.len() > 0);
                    assert(filter_outs(in_outs, f, dir, true) == filter_outs(
                        self.input.outs(),
                        f,
                        dir,
                        true,
                    ));
                }
                continue;
            }
            self.skipping = false;
            if stop_pred_exec(&self.options, self.direction, &t) {
                self.stopped = true;
                proof {
                    assert(filter_outs(in_outs, f, dir, sk) =~= Seq::<LogEntryView>::empty());
                }
                break;
            }
            proof {
                assert(filter_outs(in_outs, f, dir, sk) == (if sev_pass(f.min_level, e) && sub_pass(
                    f.contains,
                    e,
                ) {
                    seq![e] + filter_outs(self.input.outs(), f, dir, false)
                } else {
                    filter_outs(self.input.outs(), f, dir, false)
                }));
            }
            let lvl = match self.input.current_level() {
                Option::Some(l) => l,
                Option::None => {
                    // the inner stream holds a current record here
                    proof {
                        assert(false);
                    }
                    None
                },
            };
            let sev_ok = match (&self.options.min_level, &lvl) {
                (Option::Some(m), Option::Some(l)) => l.ordinal() >= m.ordinal(),
                _ => true,
            };
            proof {
                assert(sev_ok == sev_pass(f.min_level, e));
            }
            if sev_ok {
                let sub_ok = sub_pass_exec(&self.input, &self.options);
                proof {
                    assert(sub_ok == sub_pass(f.contains, e));
                }
                if sub_ok {
                    self.live = true;
                    break;
                }
            }
        }
        Ok(())
    }

    fn current(&self) -> (r: Option<&LogEntry>) {
        if self.live {
            self.input.current()
        } else {
            None
        }
    }

    fn current_timestamp(&mut self) -> (r: Option<Option<Timestamp>>) {
        if self.live {
            self.input.current_timestamp()
        } else {
            None
        }
    }

    fn current_level(&mut self) -> (r: Option<Option<LogLevel>>) {
        if self.live {
            self.input.current_level()
        } else {
            None
        }
    }
}

/// Whether the current record is still ahead of the window's near edge.
fn skip_pred_exec(options: &FilteringOptions, direction: Direction, t: &Option<Timestamp>) -> (r:
    bool)
    ensures
        r == skip_pred(options@, direction, *t),
{
    match t {
        Option::Some(ts) => match direction {
            Direction::Forward => match &options.since {
                Option::Some(s) => !s.le(ts),
                Option::None => false,
            },
            Direction::Reverse => match &options.until {
                Option::Some(u) => u.le(ts),
                Option::None => false,
            },
        },
        Option::None => false,
    }
}

/// Whether the current record lies past the window's far edge.
fn stop_pred_exec(options: &FilteringOptions, direction: Direction, t: &Option<Timestamp>) -> (r:
    bool)
    ensures
        r == stop_pred(options@, direction, *t),
{
    match t {
        Option::Some(ts) => match direction {
            Direction::Forward => match &options.until {
                Option::Some(u) => u.le(ts),
                Option::None => false,
            },
            Direction::Reverse => match &options.since {
                Option::Some(s) => !s.le(ts),
                Option::None => false,
            },
        },
        Option::None => false,
    }
}

/// Whether the current record's raw bytes contain the configured substring.
fn sub_pass_exec<I: RecordStream>(input: &I, options: &FilteringOptions) -> (r: bool)
    requires
        input.inv(),
        input.cur() is Some,
    ensures
        input.cur() matches Some(e) ==> r == sub_pass(options@.contains, e),
{
    match &options.contains {
        Option::None => true,
        Option::Some(p) => {
            match input.current() {
                Option::Some(entry) => {
                    let found = find_subslice(entry.contents().as_slice(), p.as_str().as_bytes());
                    proof {
                        if found is Some {
                            let i = found.unwrap();
                            let ghost h = entry@.contents;
                            let ghost pb = options@.contains.unwrap();
                            assert(0 <= i <= h.len() - pb.len() && h.subrange(
                                i as int,
                                i + pb.len(),
                            ) == pb);
                        }
                    }
                    found.is_some()
                },
                Option::None => {
                    // the stream holds a current record here
                    proof {
                        assert(false);
                    }
                    false
                },
            }
        },
    }
}

} // verus!
