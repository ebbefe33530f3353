use vstd::prelude::*;
use crate::date_time::{ts_text_parse, Timestamp};
use crate::date_time::parse_timestamp;

verus! {

broadcast use vstd::std_specs::vec::group_vec_axioms;

pub const DASH_BYTE: u8 = 45;
pub const GT_BYTE: u8 = 62;
pub const LEVEL_DEBUG_BYTE: u8 = 100;
pub const LEVEL_INFO_BYTE: u8 = 105;
pub const LEVEL_WARNING_BYTE: u8 = 119;
pub const LEVEL_CRITICAL_BYTE: u8 = 99;
pub const LEVEL_FATAL_BYTE: u8 = 102;

/// Severity of a record, in increasing order of gravity.
#[derive(Clone, Copy, Debug, PartialEq, Eq, Structural)]
pub enum LogLevel {
    Debug,
    Info,
    Warning,
    Critical,
    Fatal,
}

/// Position of a level in the severity order, `Debug` lowest.
pub open spec fn level_ordinal(l: LogLevel) -> int {
    match l {
        LogLevel::Debug => 0,
        LogLevel::Info => 1,
        LogLevel::Warning => 2,
        LogLevel::Critical => 3,
        LogLevel::Fatal => 4,
    }
}

impl LogLevel {
    /// Position of this level in the severity order, `Debug` lowest.
    pub fn ordinal(&self) -> (r: u32)
        ensures
            r == level_ordinal(*self),
    {
        match self {
            LogLevel::Debug => 0,
            LogLevel::Info => 1,
            LogLevel::Warning => 2,
            LogLevel::Critical => 3,
            LogLevel::Fatal => 4,
        }
    }
}

/// Index of the first occurrence of `b` in `s`, if any.
pub open spec fn find_first(s: Seq<u8>, b: u8) -> Option<int>
    decreases s.len(),
{
    if s.len() == 0 {
        None
    } else if s[0] == b {
        Some(0)
    } else {
        match find_first(s.drop_first(), b) {
            Some(i) => Some(i + 1),
            None => None,
        }
    }
}

/// `find_first` returns exactly the least index holding `b`.
pub proof fn lemma_find_first(s: Seq<u8>, b: u8)
    ensures
        find_first(s, b) matches Some(i) ==> 0 <= i < s.len() && s[i] == b && (forall|j: int|
            0 <= j < i ==> s[j] != b),
        find_first(s, b) is None ==> forall|j: int| 0 <= j < s.len() ==> s[j] != b,
    decreases s.len(),
{
    if s.len() > 0 && s[0] != b {
        lemma_find_first(s.drop_first(), b);
        let fo = find_first(s.drop_first(), b);
        if fo is Some {
            let ip = fo.unwrap();
            assert(s[ip + 1] == s.drop_first()[ip]);
            assert forall|j: int| 0 <= j < ip + 1 implies s[j] != b by {
                if j > 0 {
                    assert(s[j] == s.drop_first()[j - 1]);
                }
            }
        } else {
            assert forall|j: int| 0 <= j < s.len() implies s[j] != b by {
                if j > 0 {
                    assert(s[j] == s.drop_first()[j - 1]);
                }
            }
        }
    }
}

/// The severity letter a byte stands for in a record header.
pub open spec fn level_of_byte(b: u8) -> Option<LogLevel> {
    if b == LEVEL_DEBUG_BYTE {
        Some(LogLevel::Debug)
    } else if b == LEVEL_INFO_BYTE {
        Some(LogLevel::Info)
    } else if b == LEVEL_WARNING_BYTE {
        Some(LogLevel::Warning)
    } else if b == LEVEL_CRITICAL_BYTE {
        Some(LogLevel::Critical)
    } else if b == LEVEL_FATAL_BYTE {
        Some(LogLevel::Fatal)
    } else {
        None
    }
}

/// Severity of a record: the byte after the first `-`, mapped through the
/// severity table; absent when there is no `-`, no following byte, or no
/// match.
pub open spec fn level_of(s: Seq<u8>) -> Option<LogLevel> {
    match find_first(s, DASH_BYTE) {
        Some(i) => if i + 1 < s.len() {
            level_of_byte(s[i + 1])
        } else {
            None
        },
        None => None,
    }
}

/// Timestamp of a record: the 23 bytes starting two past the first `>`,
/// parsed in the fixed layout; absent when there is no `>`, too few bytes,
/// or the text does not parse.
pub open spec fn ts_field_of(s: Seq<u8>) -> Option<Timestamp> {
    match find_first(s, GT_BYTE) {
        Some(i) => if i + 2 + 23 <= s.len() {
            ts_text_parse(s.subrange(i + 2, i + 2 + 23))
        } else {
            None
        },
        None => None,
    }
}

/// What a record is: its raw bytes and the index of the source it came from.
pub ghost struct LogEntryView {
    pub contents: Seq<u8>,
    pub source: nat,
}

/// One logical record: raw bytes, the source it came from, and derived
/// fields computed at most once per filling of the storage.
#[derive(Debug)]
pub struct LogEntry {
    contents: Vec<u8>,
    source: usize,
    cached_level: Option<Option<LogLevel>>,
    cached_timestamp: Option<Option<Timestamp>>,
}

impl View for LogEntry {
    type V = LogEntryView;

    closed spec fn view(&self) -> LogEntryView {
        LogEntryView { contents: self.contents@, source: self.source as nat }
    }
}

impl LogEntry {
    /// The cached fields reflect only the current raw bytes.
    pub closed spec fn wf(&self) -> bool {
        &&& (self.cached_level matches Some(l) ==> l == level_of(self.contents@))
        &&& (self.cached_timestamp matches Some(t) ==> t == ts_field_of(self.contents@))
    }

    /// A record holding the given bytes, attributed to source 0.
    pub fn new(contents: Vec<u8>) -> (r: LogEntry)
        ensures
            r@.contents == contents@,
            r@.source == 0,
            r.wf(),
    {
        LogEntry { contents, source: 0, cached_level: None, cached_timestamp: None }
    }

    /// A record holding the given bytes, attributed to source 0.
    pub fn from_contents(contents: Vec<u8>) -> (r: LogEntry)
        ensures
            r@.contents == contents@,
            r@.source == 0,
            r.wf(),
    {
        LogEntry::new(contents)
    }

    /// The same record attributed to the given source.
    pub fn with_source(self, source: usize) -> (r: LogEntry)
        ensures
            r@.contents == self@.contents,
            r@.source == source,
            self.wf() ==> r.wf(),
    {
        LogEntry { source, ..self }
    }

    /// The record's raw bytes.
    pub fn contents(&self) -> (r: &Vec<u8>)
        ensures
            r@ == self@.contents,
    {
        &self.contents
    }

    /// The index of the source this record came from.
    pub fn source(&self) -> (r: usize)
        ensures
            r == self@.source,
    {
        self.source
    }

    /// The record's severity, computed at most once per filling.
    pub fn level(&mut self) -> (r: Option<LogLevel>)
        requires
            old(self).wf(),
        ensures
            final(self).wf(),
            final(self)@ == old(self)@,
            r == level_of(old(self)@.contents),
    {
        if let Some(l) = self.cached_level {
            l
        } else {
            let l = compute_level(&self.contents);
            self.cached_level = Some(l);
            l
        }
    }

    /// The record's timestamp, computed at most once per filling.
    pub fn timestamp(&mut self) -> (r: Option<Timestamp>)
        requires
            old(self).wf(),
        ensures
            final(self).wf(),
            final(self)@ == old(self)@,
            r == ts_field_of(old(self)@.contents),
    {
        if let Some(t) = self.cached_timestamp {
            t
        } else {
            let t = compute_timestamp(&self.contents);
            self.cached_timestamp = Some(t);
            t
        }
    }

    /// Empties the storage for reuse and invalidates the derived fields.
    pub fn reset(&mut self)
        ensures
            final(self).wf(),
            final(self)@.contents.len() == 0,
            final(self)@.source == old(self)@.source,
    {
        self.contents = Vec::new();
        self.cached_level = None;
        self.cached_timestamp = None;
    }

    /// Overwrites the storage with new raw bytes and invalidates the derived
    /// fields.
    pub fn set_contents(&mut self, contents: Vec<u8>)
        ensures
            final(self).wf(),
            final(self)@.contents == contents@,
            final(self)@.source == old(self)@.source,
    {
        self.contents = contents;
        self.cached_level = None;
        self.cached_timestamp = None;
    }
}

/// Finds the first occurrence of `b` in `v`.
pub fn find_first_byte(v: &Vec<u8>, b: u8) -> (r: Option<usize>)
    ensures
        r matches Some(i) ==> Some(i as int) == find_first(v@, b),
        r is None ==> find_first(v@, b) is None,
{
    proof {
        lemma_find_first(v@, b);
    }
    let n = v.len();
    let mut k: usize = 0;
    while k < n
        invariant
            0 <= k <= n,
            n == v@.len(),
            forall|j: int| 0 <= j < k ==> v@[j] != b,
        decreases n - k,
    {
        if v[k] == b {
            proof {
                lemma_find_first_unique(v@, b, k as int);
            }
            return Some(k);
        }
        k += 1;
    }
    None
}

/// A position holding `b` with none before it is what `find_first` returns.
pub proof fn lemma_find_first_unique(s: Seq<u8>, b: u8, i: int)
    requires
        0 <= i < s.len(),
        s[i] == b,
        forall|j: int| 0 <= j < i ==> s[j] != b,
    ensures
        find_first(s, b) == Some(i),
    decreases s.len(),
{
    if i > 0 {
        lemma_find_first_unique(s.drop_first(), b, i - 1);
    }
}

/// Computes the severity of raw bytes by the header rule.
fn compute_level(contents: &Vec<u8>) -> (r: Option<LogLevel>)
    ensures
        r == level_of(contents@),
{
    match find_first_byte(contents, DASH_BYTE) {
        Some(i) => {
            let n = contents.len();
            proof {
                lemma_find_first(contents@, DASH_BYTE);
                assert(i < contents@.len());
            }
            if i + 1 < n {
                let c = contents[i + 1];
                if c == LEVEL_DEBUG_BYTE {
                    Some(LogLevel::Debug)
                } else if c == LEVEL_INFO_BYTE {
                    Some(LogLevel::Info)
                } else if c == LEVEL_WARNING_BYTE {
                    Some(LogLevel::Warning)
                } else if c == LEVEL_CRITICAL_BYTE {
                    Some(LogLevel::Critical)
                } else if c == LEVEL_FATAL_BYTE {
                    Some(LogLevel::Fatal)
                } else {
                    None
                }
            } else {
                None
            }
        },
        None => None,
    }
}

/// Computes the timestamp of raw bytes by the header rule.
fn compute_timestamp(contents: &Vec<u8>) -> (r: Option<Timestamp>)
    ensures
        r == ts_field_of(contents@),
{
    match find_first_byte(contents, GT_BYTE) {
        Some(i) => {
            let n = contents.len();
            proof {
                lemma_find_first(contents@, GT_BYTE);
                assert(i < contents@.len());
            }
            if n >= 25 && i <= n - 25 {
                let mut window: Vec<u8> = Vec::new();
                let end: usize = i + 25;
                let mut k: usize = i + 2;
                while k < end
                    invariant
                        i + 2 <= k <= end,
                        end == i + 25,
                        end <= contents@.len(),
                        window@ == contents@.subrange(i + 2, k as int),
                    decreases end - k,
                {
                    window.push(contents[k]);
                    assert(window@ =~= contents@.subrange(i + 2, k + 1));
                    k += 1;
                }
                match parse_timestamp(window.as_slice()) {
                    Ok(t) => Some(t),
                    Err(_) => None,
                }
            } else {
                None
            }
        },
        None => None,
    }
}

} // verus!
