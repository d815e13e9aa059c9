//! The command parser: maps a raw message text to the bot's closed
//! command set. Recognized are the exact text `/checkgas` and
//! `/setgasalert ` followed by a whitespace-separated unsigned
//! integer token (an optional leading `+` is accepted, as Rust's
//! integer parsing does). Anything else — unknown text, a missing
//! argument, a non-numeric or too-large argument — parses to `None`
//! and is ignored. Parsing is pure, total and case-sensitive.

use crate::digits::digit_val;
use crate::digits::is_digit_byte;
use crate::digits::lemma_val_append_ge;
use crate::digits::val_of_digits;
use vstd::prelude::*;

verus! {

/// A command of the bot.
#[derive(Clone, Copy, Debug, PartialEq, Eq, Structural)]
pub enum Command {
    /// `/checkgas`: report the current gas price.
    CheckGas,
    /// `/setgasalert <gwei>`: store a new alert threshold, given in
    /// gwei.
    SetGasAlert(u64),
}

/// The bytes of `"/checkgas"`.
pub open spec fn checkgas_bytes() -> Seq<u8> {
    seq![47u8, 99, 104, 101, 99, 107, 103, 97, 115]
}

/// The bytes of `"/setgasalert "` (trailing space included).
pub open spec fn setgasalert_prefix() -> Seq<u8> {
    seq![47u8, 115, 101, 116, 103, 97, 115, 97, 108, 101, 114, 116, 32]
}

/// Whether a byte is ASCII whitespace, the separators that token
/// splitting honours.
pub open spec fn is_ws_byte(b: u8) -> bool {
    b == 9 || b == 10 || b == 11 || b == 12 || b == 13 || b == 32
}

/// Length of the whitespace run at the front of `s`.
pub open spec fn ws_count(s: Seq<u8>) -> nat
    decreases s.len(),
{
    if s.len() > 0 && is_ws_byte(s[0]) {
        1 + ws_count(s.drop_first())
    } else {
        0
    }
}

/// Length of the non-whitespace token at the front of `s`.
pub open spec fn tok_count(s: Seq<u8>) -> nat
    decreases s.len(),
{
    if s.len() > 0 && !is_ws_byte(s[0]) {
        1 + tok_count(s.drop_first())
    } else {
        0
    }
}

/// Whether every byte of `s` is an ASCII digit.
pub open spec fn all_digit_bytes(s: Seq<u8>) -> bool {
    forall|i: int| 0 <= i < s.len() ==> is_digit_byte(s[i])
}

/// How an unsigned integer token is read: an optional leading `+`,
/// then at least one digit and nothing else, denoting a value that
/// fits in a `u64`.
pub open spec fn spec_parse_u64_token(t: Seq<u8>) -> Option<u64> {
    let d = if t.len() > 0 && t[0] == 0x2b {
        t.drop_first()
    } else {
        t
    };
    if d.len() >= 1 && all_digit_bytes(d) && val_of_digits(d) <= u64::MAX as nat {
        Some(val_of_digits(d) as u64)
    } else {
        None
    }
}

/// The meaning of a raw message text: `/checkgas` exactly, or the
/// `/setgasalert ` prefix with the following whitespace-separated
/// token read as the gwei threshold; everything else is ignored.
pub open spec fn spec_parse_command(s: Seq<u8>) -> Option<Command> {
    if s == checkgas_bytes() {
        Some(Command::CheckGas)
    } else if s.len() >= 13 && s.subrange(0, 13) == setgasalert_prefix() {
        let a = 13 + ws_count(s.skip(13));
        if a == s.len() {
            None
        } else {
            let b = a + tok_count(s.skip(a as int));
            match spec_parse_u64_token(s.subrange(a as int, b as int)) {
                Some(n) => Some(Command::SetGasAlert(n)),
                None => None,
            }
        }
    } else {
        None
    }
}

/// The whitespace run at the front of `s` is exactly that: whitespace
/// up to its length, then either the end or a non-whitespace byte.
pub proof fn lemma_ws_count_props(s: Seq<u8>)
    ensures
        ws_count(s) <= s.len(),
        forall|i: int| 0 <= i < ws_count(s) ==> is_ws_byte(s[i]),
        ws_count(s) < s.len() ==> !is_ws_byte(s[ws_count(s) as int]),
    decreases s.len(),
{
    if s.len() > 0 && is_ws_byte(s[0]) {
        let t = s.drop_first();
        lemma_ws_count_props(t);
        assert(forall|i: int| 0 <= i < t.len() ==> t[i] == s[i + 1]);
        assert forall|i: int| 0 <= i < ws_count(s) implies is_ws_byte(s[i]) by {
            if i > 0 {
                assert(is_ws_byte(t[i - 1]));
            }
        }
    }
}

/// The counterpart for the token run.
pub proof fn lemma_tok_count_props(s: Seq<u8>)
    ensures
        tok_count(s) <= s.len(),
        forall|i: int| 0 <= i < tok_count(s) ==> !is_ws_byte(s[i]),
        tok_count(s) < s.len() ==> is_ws_byte(s[tok_count(s) as int]),
    decreases s.len(),
{
    if s.len() > 0 && !is_ws_byte(s[0]) {
        let t = s.drop_first();
        lemma_tok_count_props(t);
        assert(forall|i: int| 0 <= i < t.len() ==> t[i] == s[i + 1]);
        assert forall|i: int| 0 <= i < tok_count(s) implies !is_ws_byte(s[i]) by {
            if i > 0 {
                assert(!is_ws_byte(t[i - 1]));
            }
        }
    }
}

/// A sequence with no whitespace at all is one whole token.
pub proof fn lemma_tok_count_all(s: Seq<u8>)
    requires
        forall|i: int| 0 <= i < s.len() ==> !is_ws_byte(s[i]),
    ensures
        tok_count(s) == s.len(),
    decreases s.len(),
{
    if s.len() > 0 {
        let t = s.drop_first();
        assert(forall|i: int| 0 <= i < t.len() ==> t[i] == s[i + 1]);
        lemma_tok_count_all(t);
    }
}

/// Reads the token `text[a..b]` as an unsigned integer.
fn parse_u64_token(text: &Vec<u8>, a: usize, b: usize) -> (r: Option<u64>)
    requires
        a <= b <= text@.len(),
    ensures
        r == spec_parse_u64_token(text@.subrange(a as int, b as int)),
{
    let ghost t = text@.subrange(a as int, b as int);
    let start: usize = if a < b && text[a] == 0x2b {
        a + 1
    } else {
        a
    };
    let ghost d = text@.subrange(start as int, b as int);
    proof {
        assert(t.len() == b - a);
        if start == a {
            assert(d =~= t);
            if t.len() > 0 && t[0] == 0x2b {
                assert(t[0] == text@[a as int]);
                assert(false);
            }
        } else {
            assert(text@[a as int] == 0x2b);
            assert(t[0] == text@[a as int]);
            assert(d =~= t.drop_first());
        }
        assert(d == (if t.len() > 0 && t[0] == 0x2b {
            t.drop_first()
        } else {
            t
        }));
    }
    if start == b {
        return None;
    }
    let mut m = start;
    let mut acc: u64 = 0;
    while m < b
        invariant
            a <= start <= m <= b <= text@.len(),
            start < b,
            t == text@.subrange(a as int, b as int),
            d == text@.subrange(start as int, b as int),
            d == (if t.len() > 0 && t[0] == 0x2b {
                t.drop_first()
            } else {
                t
            }),
            forall|i: int| start <= i < m ==> is_digit_byte(text@[i]),
            acc as nat == val_of_digits(text@.subrange(start as int, m as int)),
        decreases b - m,
    {
        let c = text[m];
        if c < 0x30 || c > 0x39 {
            proof {
                assert(d[m - start] == text@[m as int]);
                assert(!all_digit_bytes(d));
            }
            return None;
        }
        let dv: u8 = c - 0x30;
        proof {
            assert(text@.subrange(start as int, m + 1).drop_last() =~= text@.subrange(
                start as int,
                m as int,
            ));
            assert(text@.subrange(start as int, m + 1).last() == text@[m as int]);
        }
        if acc > (u64::MAX - (dv as u64)) / 10 {
            proof {
                assert(acc * 10 + dv > u64::MAX) by (nonlinear_arith)
                    requires
                        acc > (u64::MAX - (dv as u64)) / 10,
                        0 <= dv <= 9,
                ;
                let part = text@.subrange(start as int, m + 1);
                assert(val_of_digits(part) == acc as nat * 10 + digit_val(text@[m as int]));
                assert(val_of_digits(part) > u64::MAX as nat);
                assert(d =~= part + text@.subrange(m + 1, b as int));
                lemma_val_append_ge(part, text@.subrange(m + 1, b as int));
                assert(val_of_digits(d) > u64::MAX as nat);
            }
            return None;
        }
        acc = acc * 10 + (dv as u64);
        m += 1;
    }
    proof {
        assert(d =~= text@.subrange(start as int, b as int));
        assert forall|i: int| 0 <= i < d.len() implies is_digit_byte(d[i]) by {
            assert(d[i] == text@[start + i]);
        }
        assert(val_of_digits(d) == acc as nat);
        assert(d.len() >= 1);
    }
    Some(acc)
}

/// Parses a raw message text. The result is exactly what
/// `spec_parse_command` says: `/checkgas`, a well-formed
/// `/setgasalert` with its gwei value, or nothing.
pub fn parse_command(text: &Vec<u8>) -> (r: Option<Command>)
    ensures
        r == spec_parse_command(text@),
{
    if text.len() == 9 && text[0] == 47 && text[1] == 99 && text[2] == 104 && text[3] == 101
        && text[4] == 99 && text[5] == 107 && text[6] == 103 && text[7] == 97 && text[8] == 115 {
        assert(text@ =~= checkgas_bytes());
        return Some(Command::CheckGas);
    }
    proof {
        if text@ == checkgas_bytes() {
            assert(text@.len() == 9);
            assert(text@[0] == 47 && text@[1] == 99 && text@[2] == 104 && text@[3] == 101
                && text@[4] == 99 && text@[5] == 107 && text@[6] == 103 && text@[7] == 97
                && text@[8] == 115);
            assert(false);
        }
    }
    if !(text.len() >= 13 && text[0] == 47 && text[1] == 115 && text[2] == 101 && text[3] == 116
        && text[4] == 103 && text[5] == 97 && text[6] == 115 && text[7] == 97 && text[8] == 108
        && text[9] == 101 && text[10] == 114 && text[11] == 116 && text[12] == 32) {
        proof {
            if text@.len() >= 13 && text@.subrange(0, 13) == setgasalert_prefix() {
                let p = text@.subrange(0, 13);
                assert(text@[0] == p[0] && text@[1] == p[1] && text@[2] == p[2] && text@[3] == p[3]
                    && text@[4] == p[4] && text@[5] == p[5] && text@[6] == p[6] && text@[7] == p[7]
                    && text@[8] == p[8] && text@[9] == p[9] && text@[10] == p[10] && text@[11]
                    == p[11] && text@[12] == p[12]);
                assert(false);
            }
        }
        return None;
    }
    assert(text@.subrange(0, 13) =~= setgasalert_prefix());
    let mut a: usize = 13;
    while a < text.len() && (text[a] == 9 || text[a] == 10 || text[a] == 11 || text[a] == 12
        || text[a] == 13 || text[a] == 32)
        invariant
            13 <= a <= text@.len(),
            ws_count(text@.skip(13)) == (a - 13) + ws_count(text@.skip(a as int)),
        decreases text@.len() - a,
    {
        proof {
            assert(text@.skip(a as int)[0] == text@[a as int]);
            assert(text@.skip(a as int).drop_first() =~= text@.skip(a + 1));
            assert(ws_count(text@.skip(a as int)) == 1 + ws_count(text@.skip(a + 1)));
        }
        a += 1;
    }
    proof {
        if a < text@.len() {
            assert(text@.skip(a as int)[0] == text@[a as int]);
        }
        assert(ws_count(text@.skip(a as int)) == 0);
        assert(13 + ws_count(text@.skip(13)) == a);
    }
    if a == text.len() {
        return None;
    }
    let mut b: usize = a;
    while b < text.len() && !(text[b] == 9 || text[b] == 10 || text[b] == 11 || text[b] == 12
        || text[b] == 13 || text[b] == 32)
        invariant
            a <= b <= text@.len(),
            tok_count(text@.skip(a as int)) == (b - a) + tok_count(text@.skip(b as int)),
        decreases text@.len() - b,
    {
        proof {
            assert(text@.skip(b as int)[0] == text@[b as int]);
            assert(text@.skip(b as int).drop_first() =~= text@.skip(b + 1));
            assert(tok_count(text@.skip(b as int)) == 1 + tok_count(text@.skip(b + 1)));
        }
        b += 1;
    }
    proof {
        if b < text@.len() {
            assert(text@.skip(b as int)[0] == text@[b as int]);
        }
        assert(tok_count(text@.skip(b as int)) == 0);
        assert(a + tok_count(text@.skip(a as int)) == b);
    }
    match parse_u64_token(text, a, b) {
        Some(n) => Some(Command::SetGasAlert(n)),
        None => None,
    }
}

/// Law: any valid integer token placed after `"/setgasalert "`
/// parses to exactly that threshold command.
pub proof fn lemma_parse_command_accepts_threshold(t: Seq<u8>, n: u64)
    requires
        spec_parse_u64_token(t) == Some(n),
    ensures
        spec_parse_command(setgasalert_prefix() + t) == Some(Command::SetGasAlert(n)),
{
    let s = setgasalert_prefix() + t;
    let d = if t.len() > 0 && t[0] == 0x2b {
        t.drop_first()
    } else {
        t
    };
    assert(t.len() >= 1);
    assert(s.len() == 13 + t.len());
    assert(s != checkgas_bytes()) by {
        assert(checkgas_bytes().len() == 9);
    }
    assert(s.subrange(0, 13) =~= setgasalert_prefix());
    assert(s.skip(13) =~= t);
    assert forall|i: int| 0 <= i < t.len() implies !is_ws_byte(t[i]) by {
        if t.len() > 0 && t[0] == 0x2b {
            if i > 0 {
                assert(is_digit_byte(d[i - 1]));
            }
        } else {
            assert(is_digit_byte(d[i]));
        }
    }
    assert(ws_count(t) == 0);
    lemma_tok_count_all(t);
    assert(13 + ws_count(s.skip(13)) == 13);
    assert(13 != s.len());
    assert(s.subrange(13, 13 + t.len() as int) =~= t);
}

/// Law: a missing argument, or one that is not a valid integer
/// token, makes the whole `/setgasalert` message be ignored.
pub proof fn lemma_parse_command_ignores_bad_threshold(t: Seq<u8>)
    requires
        ({
            let a = ws_count(t) as int;
            let b = a + tok_count(t.skip(a));
            a == t.len() || spec_parse_u64_token(t.subrange(a, b)) is None
        }),
    ensures
        spec_parse_command(setgasalert_prefix() + t) == None::<Command>,
{
    let s = setgasalert_prefix() + t;
    assert(s.len() == 13 + t.len());
    assert(s != checkgas_bytes()) by {
        assert(checkgas_bytes().len() == 9);
    }
    assert(s.subrange(0, 13) =~= setgasalert_prefix());
    assert(s.skip(13) =~= t);
    let a = ws_count(t) as int;
    let b = a + tok_count(t.skip(a));
    lemma_ws_count_props(t);
    if a == t.len() {
        assert(13 + ws_count(s.skip(13)) == s.len());
    } else {
        assert(s.skip(13 + a) =~= t.skip(a));
        assert(s.subrange(13 + a, 13 + b) =~= t.subrange(a, b)) by {
            lemma_tok_count_props(t.skip(a));
        }
    }
}

} // verus!
