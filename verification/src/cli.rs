use vstd::prelude::*;
use vstd::string::StringSliceAdditionalSpecFns;
use crate::date_time::{cli_date_time_parse, parse_date_time_cli_option, Timestamp};
use crate::log_entry::LogLevel;

verus! {

broadcast use vstd::std_specs::vec::group_vec_axioms;

/// An upper-case ASCII letter lowered; any other byte unchanged.
pub open spec fn ascii_lower(b: u8) -> u8 {
    if 65 <= b && b <= 90 {
        (b + 32) as u8
    } else {
        b
    }
}

/// The bytes of `s` with ASCII letters lowered.
pub open spec fn lower_bytes(s: Seq<u8>) -> Seq<u8> {
    Seq::new(s.len(), |i: int| ascii_lower(s[i]))
}

/// The bytes of the level name `debug`.
pub open spec fn name_debug() -> Seq<u8> {
    seq![100u8, 101u8, 98u8, 117u8, 103u8]
}

/// The bytes of the level name `info`.
pub open spec fn name_info() -> Seq<u8> {
    seq![105u8, 110u8, 102u8, 111u8]
}

/// The bytes of the level name `warning`.
pub open spec fn name_warning() -> Seq<u8> {
    seq![119u8, 97u8, 114u8, 110u8, 105u8, 110u8, 103u8]
}

/// The bytes of the level name `critical`.
pub open spec fn name_critical() -> Seq<u8> {
    seq![99u8, 114u8, 105u8, 116u8, 105u8, 99u8, 97u8, 108u8]
}

/// The bytes of the level name `fatal`.
pub open spec fn name_fatal() -> Seq<u8> {
    seq![102u8, 97u8, 116u8, 97u8, 108u8]
}

/// The level a name denotes, matched without regard to ASCII case.
pub open spec fn level_name_of(s: Seq<u8>) -> Option<LogLevel> {
    let l = lower_bytes(s);
    if l == name_debug() {
        Some(LogLevel::Debug)
    } else if l == name_info() {
        Some(LogLevel::Info)
    } else if l == name_warning() {
        Some(LogLevel::Warning)
    } else if l == name_critical() {
        Some(LogLevel::Critical)
    } else if l == name_fatal() {
        Some(LogLevel::Fatal)
    } else {
        None
    }
}

/// The bytes of the affirmative option values `yes`, `true` and `on`.
pub open spec fn names_true() -> Seq<Seq<u8>> {
    seq![seq![121u8, 101u8, 115u8], seq![116u8, 114u8, 117u8, 101u8], seq![111u8, 110u8]]
}

/// The bytes of the negative option values `no`, `false` and `off`.
pub open spec fn names_false() -> Seq<Seq<u8>> {
    seq![
        seq![110u8, 111u8],
        seq![102u8, 97u8, 108u8, 115u8, 101u8],
        seq![111u8, 102u8, 102u8],
    ]
}

/// The boolean an option value denotes, matched without regard to ASCII
/// case.
pub open spec fn bool_name_of(s: Seq<u8>) -> Option<bool> {
    let l = lower_bytes(s);
    if names_true().contains(l) {
        Some(true)
    } else if names_false().contains(l) {
        Some(false)
    } else {
        None
    }
}

/// Lowers the ASCII letters of `s`.
fn lower_ascii(s: &[u8]) -> (r: Vec<u8>)
    ensures
        r@ == lower_bytes(s@),
{
    let n = s.len();
    let mut v: Vec<u8> = Vec::new();
    let mut k: usize = 0;
    while k < n
        invariant
            0 <= k <= n,
            n == s@.len(),
            v@ == lower_bytes(s@).subrange(0, k as int),
        decreases n - k,
    {
        let b = s[k];
        if 65 <= b && b <= 90 {
            v.push(b + 32);
        } else {
            v.push(b);
        }
        assert(v@ =~= lower_bytes(s@).subrange(0, k + 1));
        k += 1;
    }
    assert(v@ =~= lower_bytes(s@));
    v
}

/// Whether two byte strings are equal.
fn eq_bytes(a: &Vec<u8>, b: &Vec<u8>) -> (r: bool)
    ensures
        r == (a@ == b@),
{
    if a.len() != b.len() {
        return false;
    }
    let n = a.len();
    let mut k: usize = 0;
    while k < n
        invariant
            0 <= k <= n,
            n == a@.len(),
            n == b@.len(),
            forall|j: int| 0 <= j < k ==> a@[j] == b@[j],
        decreases n - k,
    {
        if a[k] != b[k] {
            return false;
        }
        k += 1;
    }
    proof {
        assert(a@ =~= b@);
    }
    true
}

/// The severity a command-line level name denotes: `debug`, `info`,
/// `warning`, `critical` or `fatal`, in any ASCII case.
pub fn parse_level_arg(input: &str) -> (r: Option<LogLevel>)
    ensures
        r == level_name_of(input.spec_bytes()),
{
    let low = lower_ascii(input.as_bytes());
    let mut cand: Vec<u8> = Vec::new();
    cand.push(100);
    cand.push(101);
    cand.push(98);
    cand.push(117);
    cand.push(103);
    proof {
        assert(cand@ =~= name_debug());
    }
    if eq_bytes(&low, &cand) {
        return Some(LogLevel::Debug);
    }
    let mut cand: Vec<u8> = Vec::new();
    cand.push(105);
    cand.push(110);
    cand.push(102);
    cand.push(111);
    proof {
        assert(cand@ =~= name_info());
    }
    if eq_bytes(&low, &cand) {
        return Some(LogLevel::Info);
    }
    let mut cand: Vec<u8> = Vec::new();
    cand.push(119);
    cand.push(97);
    cand.push(114);
    cand.push(110);
    cand.push(105);
    cand.push(110);
    cand.push(103);
    proof {
        assert(cand@ =~= name_warning());
    }
    if eq_bytes(&low, &cand) {
        return Some(LogLevel::Warning);
    }
    let mut cand: Vec<u8> = Vec::new();
    cand.push(99);
    cand.push(114);
    cand.push(105);
    cand.push(116);
    cand.push(105);
    cand.push(99);
    cand.push(97);
    cand.push(108);
    proof {
        assert(cand@ =~= name_critical());
    }
    if eq_bytes(&low, &cand) {
        return Some(LogLevel::Critical);
    }
    let mut cand: Vec<u8> = Vec::new();
    cand.push(102);
    cand.push(97);
    cand.push(116);
    cand.push(97);
    cand.push(108);
    proof {
        assert(cand@ =~= name_fatal());
    }
    if eq_bytes(&low, &cand) {
        return Some(LogLevel::Fatal);
    }
    None
}

/// The boolean a command-line option value denotes: `yes`, `true` or `on`
/// against `no`, `false` or `off`, in any ASCII case.
pub fn parse_bool_arg(input: &str) -> (r: Option<bool>)
    ensures
        r == bool_name_of(input.spec_bytes()),
{
    let low = lower_ascii(input.as_bytes());
    let mut cand: Vec<u8> = Vec::new();
    cand.push(121);
    cand.push(101);
    cand.push(115);
    proof {
        assert(cand@ =~= names_true()[0]);
    }
    if eq_bytes(&low, &cand) {
        proof {
            assert(names_true().contains(low@));
        }
        return Some(true);
    }
    let mut cand: Vec<u8> = Vec::new();
    cand.push(116);
    cand.push(114);
    cand.push(117);
    cand.push(101);
    proof {
        assert(cand@ =~= names_true()[1]);
    }
    if eq_bytes(&low, &cand) {
        proof {
            assert(names_true().contains(low@));
        }
        return Some(true);
    }
    let mut cand: Vec<u8> = Vec::new();
    cand.push(111);
    cand.push(110);
    proof {
        assert(cand@ =~= names_true()[2]);
    }
    if eq_bytes(&low, &cand) {
        proof {
            assert(names_true().contains(low@));
        }
        return Some(true);
    }
    let mut cand: Vec<u8> = Vec::new();
    cand.push(110);
    cand.push(111);
    proof {
        assert(cand@ =~= names_false()[0]);
    }
    if eq_bytes(&low, &cand) {
        proof {
            assert(!names_true().contains(low@)) by {
                lemma_true_false_disjoint(low@);
            }
            assert(names_false().contains(low@));
        }
        return Some(false);
    }
    let mut cand: Vec<u8> = Vec::new();
    cand.push(102);
    cand.push(97);
    cand.push(108);
    cand.push(115);
    cand.push(101);
    proof {
        assert(cand@ =~= names_false()[1]);
    }
    if eq_bytes(&low, &cand) {
        proof {
            assert(!names_true().contains(low@)) by {
                lemma_true_false_disjoint(low@);
            }
            assert(names_false().contains(low@));
        }
        return Some(false);
    }
    let mut cand: Vec<u8> = Vec::new();
    cand.push(111);
    cand.push(102);
    cand.push(102);
    proof {
        assert(cand@ =~= names_false()[2]);
    }
    if eq_bytes(&low, &cand) {
        proof {
            assert(!names_true().contains(low@)) by {
                lemma_true_false_disjoint(low@);
            }
            assert(names_false().contains(low@));
        }
        return Some(false);
    }
    proof {
        if names_true().contains(low@) {
            let i = choose|i: int| 0 <= i < names_true().len() && names_true()[i] == low@;
            assert(i == 0 || i == 1 || i == 2);
        }
        if names_false().contains(low@) {
            let i = choose|i: int| 0 <= i < names_false().len() && names_false()[i] == low@;
            assert(i == 0 || i == 1 || i == 2);
        }
    }
    None
}

/// The date/time a command-line option value denotes, trying the accepted
/// layouts from the most to the least precise; a bare date means midnight.
pub fn parse_date_time_arg(input: &str) -> (r: Option<Timestamp>)
    ensures
        r == cli_date_time_parse(input@),
{
    match parse_date_time_cli_option(input, "date_time") {
        Ok(t) => Some(t),
        Err(_) => None,
    }
}

/// No option value is both affirmative and negative.
proof fn lemma_true_false_disjoint(l: Seq<u8>)
    requires
        names_false().contains(l),
    ensures
        !names_true().contains(l),
{
    if names_true().contains(l) {
        let i = choose|i: int| 0 <= i < names_true().len() && names_true()[i] == l;
        let j = choose|j: int| 0 <= j < names_false().len() && names_false()[j] == l;
        assert(i == 0 || i == 1 || i == 2);
        assert(j == 0 || j == 1 || j == 2);
        assert(names_true()[i][0] == names_false()[j][0] || names_true()[i].len()
            != names_false()[j].len() || names_true()[i][1] == names_false()[j][1]);
    }
}

} // verus!
