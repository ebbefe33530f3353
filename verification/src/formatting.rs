use vstd::prelude::*;
use crate::log_entry_reader::append_all;

verus! {

broadcast use vstd::std_specs::vec::group_vec_axioms;

pub const BACKSLASH_BYTE: u8 = 92;
pub const ESC_ZERO_BYTE: u8 = 48;
pub const ESC_NEWLINE_BYTE: u8 = 110;
pub const ESC_RETURN_BYTE: u8 = 114;
pub const ESC_TAB_BYTE: u8 = 116;
pub const ESC_QUESTION_BYTE: u8 = 63;
pub const ESC_QUOTE_BYTE: u8 = 39;
pub const ESC_DQUOTE_BYTE: u8 = 34;

/// Where the formatter stands in the byte stream: copying plain bytes, right
/// after an escaping backslash, or holding a literal backslash made from a
/// doubled one.
#[derive(Clone, Copy, Debug, PartialEq, Eq, Structural)]
pub enum FmtState {
    Norm,
    Esc,
    Lit,
}

/// What an escaped byte expands to: NUL, the terminator (followed by the
/// after-terminator bytes), nothing for a carriage return, tab, the literal
/// punctuation, or the backslash and the byte unchanged when unknown.
pub open spec fn esc_expansion(b: u8, eol: Seq<u8>, after: Seq<u8>) -> Seq<u8> {
    if b == ESC_ZERO_BYTE {
        seq![0u8]
    } else if b == ESC_NEWLINE_BYTE {
        eol + after
    } else if b == ESC_RETURN_BYTE {
        Seq::empty()
    } else if b == ESC_TAB_BYTE {
        seq![9u8]
    } else if b == ESC_QUESTION_BYTE {
        seq![ESC_QUESTION_BYTE]
    } else if b == ESC_QUOTE_BYTE {
        seq![ESC_QUOTE_BYTE]
    } else if b == ESC_DQUOTE_BYTE {
        seq![ESC_DQUOTE_BYTE]
    } else {
        seq![BACKSLASH_BYTE, b]
    }
}

/// One formatting step: what the byte emits and the next state.
pub open spec fn fmt_step(st: FmtState, b: u8, eol: Seq<u8>, after: Seq<u8>) -> (Seq<u8>, FmtState) {
    match st {
        FmtState::Norm => if b == BACKSLASH_BYTE {
            (Seq::empty(), FmtState::Esc)
        } else {
            (seq![b], FmtState::Norm)
        },
        FmtState::Esc => if b == BACKSLASH_BYTE {
            (Seq::empty(), FmtState::Lit)
        } else {
            (esc_expansion(b, eol, after), FmtState::Norm)
        },
        FmtState::Lit => if b == BACKSLASH_BYTE {
            (seq![BACKSLASH_BYTE], FmtState::Esc)
        } else {
            (seq![BACKSLASH_BYTE, b], FmtState::Norm)
        },
    }
}

/// The bytes a run of formatting steps emits, and the state it ends in.
pub open spec fn fmt_from(s: Seq<u8>, st: FmtState, eol: Seq<u8>, after: Seq<u8>) -> (
    Seq<u8>,
    FmtState,
)
    decreases s.len(),
{
    if s.len() == 0 {
        (Seq::empty(), st)
    } else {
        let (o1, st1) = fmt_step(st, s[0], eol, after);
        let (o2, st2) = fmt_from(s.drop_first(), st1, eol, after);
        (o1 + o2, st2)
    }
}

/// What the end of the buffer emits: a held literal backslash, or nothing.
pub open spec fn fmt_close(st: FmtState) -> Seq<u8> {
    if st is Lit {
        seq![BACKSLASH_BYTE]
    } else {
        Seq::empty()
    }
}

/// The bytes formatting a buffer writes.  A buffer opening with a backslash
/// and no escape carried in emits that backslash and escapes the next byte.
pub open spec fn format_output(s: Seq<u8>, ctr: bool, eol: Seq<u8>, after: Seq<u8>) -> Seq<u8> {
    if !ctr && s.len() == 0 {
        seq![BACKSLASH_BYTE]
    } else if !ctr && s[0] == BACKSLASH_BYTE {
        let (o, st) = fmt_from(s.drop_first(), FmtState::Esc, eol, after);
        seq![BACKSLASH_BYTE] + o + fmt_close(st)
    } else {
        let st0 = if ctr {
            FmtState::Esc
        } else {
            FmtState::Norm
        };
        let (o, st) = fmt_from(s, st0, eol, after);
        o + fmt_close(st)
    }
}

/// Whether a lone backslash is carried over to the next buffer.
pub open spec fn format_flag(s: Seq<u8>, ctr: bool, eol: Seq<u8>, after: Seq<u8>) -> bool {
    if !ctr && s.len() == 0 {
        false
    } else if !ctr && s[0] == BACKSLASH_BYTE {
        fmt_from(s.drop_first(), FmtState::Esc, eol, after).1 is Esc
    } else {
        let st0 = if ctr {
            FmtState::Esc
        } else {
            FmtState::Norm
        };
        fmt_from(s, st0, eol, after).1 is Esc
    }
}

/// One more byte runs one more step.
proof fn lemma_fmt_from_snoc(s: Seq<u8>, b: u8, st: FmtState, eol: Seq<u8>, after: Seq<u8>)
    ensures
        ({
            let (o, st1) = fmt_from(s, st, eol, after);
            let (ob, st2) = fmt_step(st1, b, eol, after);
            fmt_from(s.push(b), st, eol, after) == ((o + ob, st2))
        }),
    decreases s.len(),
{
    if s.len() == 0 {
        reveal_with_fuel(fmt_from, 3);
        assert(s.push(b)[0] == b);
        assert(s.push(b).drop_first() =~= Seq::<u8>::empty());
        let (ob, st2) = fmt_step(st, b, eol, after);
        assert(fmt_from(s.push(b), st, eol, after).0 =~= ob + Seq::<u8>::empty());
        assert(fmt_from(s.push(b), st, eol, after).0 =~= ob);
        assert(fmt_from(s, st, eol, after).0 + ob =~= ob);
    } else {
        let (o1, st1) = fmt_step(st, s[0], eol, after);
        lemma_fmt_from_snoc(s.drop_first(), b, st1, eol, after);
        assert(s.push(b)[0] == s[0]);
        assert(s.push(b).drop_first() =~= s.drop_first().push(b));
        let (o2, st2) = fmt_from(s.drop_first(), st1, eol, after);
        let (ob, st3) = fmt_step(st2, b, eol, after);
        assert(fmt_from(s.push(b), st, eol, after).0 =~= o1 + (o2 + ob));
        assert(o1 + (o2 + ob) =~= (o1 + o2) + ob);
    }
}

/// Appends what one escaped byte expands to.
fn emit_escape(writer: &mut Vec<u8>, b: u8, eol: &[u8], after_eol: &[u8])
    ensures
        final(writer)@ == old(writer)@ + esc_expansion(b, eol@, after_eol@),
{
    if b == ESC_ZERO_BYTE {
        writer.push(0);
        assert(final(writer)@ =~= old(writer)@ + esc_expansion(b, eol@, after_eol@));
    } else if b == ESC_NEWLINE_BYTE {
        append_all(writer, eol);
        append_all(writer, after_eol);
        assert(final(writer)@ =~= old(writer)@ + esc_expansion(b, eol@, after_eol@));
    } else if b == ESC_RETURN_BYTE {
        assert(final(writer)@ =~= old(writer)@ + esc_expansion(b, eol@, after_eol@));
    } else if b == ESC_TAB_BYTE {
        writer.push(9);
        assert(final(writer)@ =~= old(writer)@ + esc_expansion(b, eol@, after_eol@));
    } else if b == ESC_QUESTION_BYTE || b == ESC_QUOTE_BYTE || b == ESC_DQUOTE_BYTE {
        writer.push(b);
        assert(final(writer)@ =~= old(writer)@ + esc_expansion(b, eol@, after_eol@));
    } else {
        writer.push(BACKSLASH_BYTE);
        writer.push(b);
        assert(final(writer)@ =~= old(writer)@ + esc_expansion(b, eol@, after_eol@));
    }
}

/// Rewrites the escape sequences of `buf` onto the end of `writer`,
/// expanding `\n` to the terminator followed by `after_eol`, and returns
/// whether a lone backslash at the end is carried to the next buffer, to be
/// handed back as `ctr_char_is_next`.
pub fn format_special_chars(
    buf: &[u8],
    writer: &mut Vec<u8>,
    ctr_char_is_next: bool,
    eol: &[u8],
    after_eol: &[u8],
) -> (r: bool)
    ensures
        final(writer)@ == old(writer)@ + format_output(buf@, ctr_char_is_next, eol@, after_eol@),
        r == format_flag(buf@, ctr_char_is_next, eol@, after_eol@),
{
    let n = buf.len();
    if !ctr_char_is_next && n == 0 {
        writer.push(BACKSLASH_BYTE);
        proof {
            assert(final(writer)@ =~= old(writer)@ + format_output(
                buf@,
                ctr_char_is_next,
                eol@,
                after_eol@,
            ));
        }
        return false;
    }
    let ghost quirk = !ctr_char_is_next && buf@[0] == BACKSLASH_BYTE;
    let ghost base: Seq<u8> = if quirk {
        seq![BACKSLASH_BYTE]
    } else {
        Seq::empty()
    };
    let ghost start: int = if quirk {
        1
    } else {
        0
    };
    let ghost st_init: FmtState = if ctr_char_is_next || quirk {
        FmtState::Esc
    } else {
        FmtState::Norm
    };
    let mut st: FmtState = if ctr_char_is_next {
        FmtState::Esc
    } else {
        FmtState::Norm
    };
    let mut k: usize = 0;
    if !ctr_char_is_next && buf[0] == BACKSLASH_BYTE {
        writer.push(BACKSLASH_BYTE);
        st = FmtState::Esc;
        k = 1;
    }
    while k < n
        invariant
            start <= k <= n,
            n == buf@.len(),
            0 <= start <= 1,
            writer@ == old(writer)@ + base + fmt_from(
                buf@.subrange(start, k as int),
                st_init,
                eol@,
                after_eol@,
            ).0,
            st == fmt_from(buf@.subrange(start, k as int), st_init, eol@, after_eol@).1,
        decreases n - k,
    {
        let b = buf[k];
        let ghost pre = buf@.subrange(start, k as int);
        match st {
            FmtState::Norm => {
                if b == BACKSLASH_BYTE {
                    st = FmtState::Esc;
                } else {
                    writer.push(b);
                }
            },
            FmtState::Esc => {
                if b == BACKSLASH_BYTE {
                    st = FmtState::Lit;
                } else {
                    emit_escape(writer, b, eol, after_eol);
                    st = FmtState::Norm;
                }
            },
            FmtState::Lit => {
                if b == BACKSLASH_BYTE {
                    writer.push(BACKSLASH_BYTE);
                    st = FmtState::Esc;
                } else {
                    writer.push(BACKSLASH_BYTE);
                    writer.push(b);
                    st = FmtState::Norm;
                }
            },
        }
        proof {
            lemma_fmt_from_snoc(pre, b, st_init, eol@, after_eol@);
            assert(buf@.subrange(start, k + 1) =~= pre.push(b));
            assert(writer@ =~= old(writer)@ + base + fmt_from(
                buf@.subrange(start, k + 1),
                st_init,
                eol@,
                after_eol@,
            ).0);
        }
        k += 1;
    }
    proof {
        assert(buf@.subrange(start, n as int) =~= buf@.subrange(start, k as int));
        if quirk {
            assert(buf@.drop_first() =~= buf@.subrange(1, n as int));
        } else {
            assert(buf@.subrange(0, n as int) =~= buf@);
        }
    }
    match st {
        FmtState::Lit => {
            writer.push(BACKSLASH_BYTE);
            proof {
                assert(final(writer)@ =~= old(writer)@ + format_output(
                    buf@,
                    ctr_char_is_next,
                    eol@,
                    after_eol@,
                ));
            }
            false
        },
        FmtState::Esc => {
            proof {
                assert(writer@ =~= old(writer)@ + format_output(
                    buf@,
                    ctr_char_is_next,
                    eol@,
                    after_eol@,
                ));
            }
            true
        },
        FmtState::Norm => {
            proof {
                assert(writer@ =~= old(writer)@ + format_output(
                    buf@,
                    ctr_char_is_next,
                    eol@,
                    after_eol@,
                ));
            }
            false
        },
    }
}

} // verus!
