//! The threshold file format: a canonical JSON array of unsigned
//! decimal integers, e.g. `[]` or `[100000000,50000000000]` — no
//! whitespace, no signs, no leading zeros. `spec_encode_list` is the
//! one meaning of "the file for this list"; parsing accepts exactly
//! the encodings and nothing else, which the lemmas here prove.

use crate::digits::digit_run_len;
use crate::digits::digit_val;
use crate::digits::is_canonical_digits;
use crate::digits::is_digit_byte;
use crate::digits::lemma_digit_run_len_of;
use crate::digits::lemma_digit_run_len_props;
use crate::digits::lemma_spec_digits_canonical;
use crate::digits::lemma_spec_digits_of_val;
use crate::digits::lemma_val_append_ge;
use crate::digits::lemma_val_of_spec_digits;
use crate::digits::push_digits;
use crate::digits::spec_digits;
use crate::digits::val_of_digits;
use vstd::prelude::*;

verus! {

/// ASCII `[`.
pub const LBRACKET: u8 = 0x5b;

/// ASCII `]`.
pub const RBRACKET: u8 = 0x5d;

/// ASCII `,`.
pub const COMMA: u8 = 0x2c;

/// The items of the encoding: decimal numbers joined by commas.
pub open spec fn spec_encode_items(l: Seq<u128>) -> Seq<u8>
    decreases l.len(),
{
    if l.len() == 0 {
        Seq::empty()
    } else if l.len() == 1 {
        spec_digits(l[0] as nat)
    } else {
        spec_digits(l[0] as nat) + seq![COMMA] + spec_encode_items(l.drop_first())
    }
}

/// The canonical encoding of a threshold list: `[`, the items, `]`.
pub open spec fn spec_encode_list(l: Seq<u128>) -> Seq<u8> {
    seq![LBRACKET] + spec_encode_items(l) + seq![RBRACKET]
}

/// Parses a nonempty item sequence followed by the closing bracket:
/// a number, then either `,` and more items or `]` ending the input.
/// `None` on anything else, including numbers that exceed `u128`.
pub open spec fn spec_parse_items(s: Seq<u8>) -> Option<Seq<u128>>
    decreases s.len(),
{
    let k = digit_run_len(s) as int;
    if k == 0 {
        None
    } else if s[0] == 0x30 && k > 1 {
        None
    } else if val_of_digits(s.subrange(0, k)) > u128::MAX as nat {
        None
    } else {
        let v = val_of_digits(s.subrange(0, k)) as u128;
        if k < s.len() && s[k] == COMMA {
            match spec_parse_items(s.skip(k + 1)) {
                Some(rest) => Some(seq![v] + rest),
                None => None,
            }
        } else if k == s.len() - 1 && s[k] == RBRACKET {
            Some(seq![v])
        } else {
            None
        }
    }
}

/// Parses a whole threshold file: `Some` exactly on the canonical
/// encodings, as `lemma_parse_of_encoding` and `lemma_parse_sound`
/// establish.
pub open spec fn spec_parse_list(s: Seq<u8>) -> Option<Seq<u128>> {
    if s.len() < 2 || s[0] != LBRACKET {
        None
    } else if s.len() == 2 && s[1] == RBRACKET {
        Some(Seq::empty())
    } else {
        spec_parse_items(s.skip(1))
    }
}

/// Encoding one more item appends a comma (unless the list was empty)
/// and the item's digits.
pub proof fn lemma_encode_items_snoc(l: Seq<u128>, v: u128)
    ensures
        spec_encode_items(l.push(v)) == if l.len() == 0 {
            spec_digits(v as nat)
        } else {
            spec_encode_items(l) + seq![COMMA] + spec_digits(v as nat)
        },
    decreases l.len(),
{
    let p = l.push(v);
    if l.len() == 0 {
        assert(p.len() == 1 && p[0] == v);
    } else if l.len() == 1 {
        assert(p.drop_first() =~= seq![v]);
        assert(spec_encode_items(seq![v]) == spec_digits(v as nat));
        assert(spec_encode_items(p) =~= spec_encode_items(l) + seq![COMMA] + spec_digits(
            v as nat,
        ));
    } else {
        lemma_encode_items_snoc(l.drop_first(), v);
        assert(p.drop_first() =~= l.drop_first().push(v));
        assert(p[0] == l[0]);
        assert(spec_encode_items(p) =~= spec_encode_items(l) + seq![COMMA] + spec_digits(
            v as nat,
        ));
    }
}

/// The items of a nonempty list, followed by `]`, parse back to that
/// list: the items half of the round trip.
pub proof fn lemma_parse_items_of_encoding(l: Seq<u128>)
    requires
        l.len() >= 1,
    ensures
        spec_parse_items(spec_encode_items(l) + seq![RBRACKET]) == Some(l),
    decreases l.len(),
{
    let d = spec_digits(l[0] as nat);
    lemma_spec_digits_canonical(l[0] as nat);
    lemma_val_of_spec_digits(l[0] as nat);
    if l.len() == 1 {
        let s = spec_encode_items(l) + seq![RBRACKET];
        assert(s =~= d + seq![RBRACKET]);
        lemma_digit_run_len_of(d, seq![RBRACKET]);
        let k = digit_run_len(s) as int;
        assert(k == d.len());
        assert(s.subrange(0, k) =~= d);
        assert(val_of_digits(s.subrange(0, k)) == l[0] as nat);
        assert(s[k] == RBRACKET);
        assert(k == s.len() - 1);
        assert(!(s[0] == 0x30 && k > 1));
        assert(spec_parse_items(s) == Some(seq![l[0]]));
        assert(seq![l[0]] =~= l);
    } else {
        let rest = l.drop_first();
        lemma_parse_items_of_encoding(rest);
        let tail = spec_encode_items(rest) + seq![RBRACKET];
        let s = spec_encode_items(l) + seq![RBRACKET];
        assert(s =~= d + seq![COMMA] + tail);
        assert(s =~= d + (seq![COMMA] + tail));
        lemma_digit_run_len_of(d, seq![COMMA] + tail);
        let k = digit_run_len(s) as int;
        assert(k == d.len());
        assert(s.subrange(0, k) =~= d);
        assert(val_of_digits(s.subrange(0, k)) == l[0] as nat);
        assert(s[k] == COMMA);
        assert(k < s.len());
        assert(!(s[0] == 0x30 && k > 1));
        assert(s.skip(k + 1) =~= tail);
        assert(spec_parse_items(s) == Some(seq![l[0]] + rest));
        assert(seq![l[0]] + rest =~= l);
    }
}

/// Round trip: the canonical encoding of any list parses back to it.
pub proof fn lemma_parse_of_encoding(l: Seq<u128>)
    ensures
        spec_parse_list(spec_encode_list(l)) == Some(l),
{
    let s = spec_encode_list(l);
    if l.len() == 0 {
        assert(spec_encode_items(l) =~= Seq::<u8>::empty());
        assert(s =~= seq![LBRACKET, RBRACKET]);
        assert(spec_parse_list(s) == Some(Seq::<u128>::empty()));
        assert(Seq::<u128>::empty() =~= l);
    } else {
        lemma_parse_items_of_encoding(l);
        lemma_spec_digits_canonical(l[0] as nat);
        assert(spec_encode_items(l).len() >= 1) by {
            if l.len() == 1 {
            } else {
                assert(spec_encode_items(l) == spec_digits(l[0] as nat) + seq![COMMA]
                    + spec_encode_items(l.drop_first()));
            }
        }
        assert(s.len() >= 3);
        assert(s[0] == LBRACKET);
        assert(s.skip(1) =~= spec_encode_items(l) + seq![RBRACKET]);
        assert(spec_parse_list(s) == spec_parse_items(s.skip(1)));
    }
}

/// Items soundness: whatever `spec_parse_items` accepts is exactly a
/// nonempty item encoding followed by `]`.
pub proof fn lemma_parse_items_sound(s: Seq<u8>, l: Seq<u128>)
    requires
        spec_parse_items(s) == Some(l),
    ensures
        l.len() >= 1,
        s == spec_encode_items(l) + seq![RBRACKET],
    decreases s.len(),
{
    lemma_digit_run_len_props(s);
    let k = digit_run_len(s) as int;
    let d = s.subrange(0, k);
    assert(forall|i: int| 0 <= i < d.len() ==> is_digit_byte(#[trigger] d[i]));
    assert(d[0] == s[0]);
    assert(is_canonical_digits(d));
    let v = val_of_digits(d) as u128;
    lemma_spec_digits_of_val(d);
    assert(spec_digits(v as nat) =~= d);
    if k < s.len() && s[k] == COMMA {
        let rest = spec_parse_items(s.skip(k + 1)).unwrap();
        lemma_parse_items_sound(s.skip(k + 1), rest);
        assert(l == seq![v] + rest);
        assert(l.len() >= 2);
        assert(l[0] == v);
        assert(l.drop_first() =~= rest);
        assert(s =~= d + seq![COMMA] + s.skip(k + 1));
        assert(spec_encode_items(l) == spec_digits(l[0] as nat) + seq![COMMA] + spec_encode_items(
            rest,
        ));
        assert(s =~= spec_encode_items(l) + seq![RBRACKET]);
    } else {
        assert(k == s.len() - 1 && s[k] == RBRACKET);
        assert(l == seq![v]);
        assert(spec_encode_items(l) == spec_digits(v as nat));
        assert(s =~= d + seq![RBRACKET]);
        assert(s =~= spec_encode_items(l) + seq![RBRACKET]);
    }
}

/// Soundness: whatever `spec_parse_list` accepts is exactly the
/// canonical encoding of the list it returns.
pub proof fn lemma_parse_sound(s: Seq<u8>, l: Seq<u128>)
    requires
        spec_parse_list(s) == Some(l),
    ensures
        s == spec_encode_list(l),
{
    if s.len() == 2 && s[1] == RBRACKET {
        assert(l =~= Seq::<u128>::empty());
        assert(spec_encode_items(l) =~= Seq::<u8>::empty());
        assert(s =~= spec_encode_list(l));
    } else {
        lemma_parse_items_sound(s.skip(1), l);
        assert(s =~= seq![LBRACKET] + s.skip(1));
        assert(s =~= spec_encode_list(l));
    }
}

/// Encodes a threshold list as its canonical file bytes.
pub fn encode_thresholds(l: &Vec<u128>) -> (r: Vec<u8>)
    ensures
        r@ == spec_encode_list(l@),
{
    let mut out: Vec<u8> = Vec::new();
    out.push(LBRACKET);
    assert(out@ =~= seq![LBRACKET] + spec_encode_items(l@.subrange(0, 0)));
    let mut i: usize = 0;
    while i < l.len()
        invariant
            i <= l@.len(),
            out@ == seq![LBRACKET] + spec_encode_items(l@.subrange(0, i as int)),
        decreases l@.len() - i,
    {
        let ghost pre = l@.subrange(0, i as int);
        if i > 0 {
            out.push(COMMA);
        }
        push_digits(&mut out, l[i]);
        proof {
            lemma_encode_items_snoc(pre, l@[i as int]);
            assert(l@.subrange(0, i + 1) =~= pre.push(l@[i as int]));
            assert(out@ =~= seq![LBRACKET] + spec_encode_items(l@.subrange(0, i + 1)));
        }
        i += 1;
    }
    assert(l@.subrange(0, l@.len() as int) =~= l@);
    out.push(RBRACKET);
    assert(out@ =~= spec_encode_list(l@));
    out
}

/// Scans the decimal number at position `i`: on success, its value and
/// the position just past its digits; `None` exactly when the digit
/// run there is empty, has a leading zero, or denotes a number above
/// `u128::MAX` — the cases `spec_parse_items` rejects.
fn scan_number(s: &Vec<u8>, i: usize) -> (r: Option<(u128, usize)>)
    requires
        i <= s@.len(),
    ensures
        ({
            let t = s@.skip(i as int);
            let k = digit_run_len(t) as int;
            match r {
                Some((v, j)) => {
                    &&& i + k == j
                    &&& k >= 1
                    &&& !(t[0] == 0x30 && k > 1)
                    &&& val_of_digits(t.subrange(0, k)) == v as nat
                },
                None => {
                    ||| k == 0
                    ||| (t[0] == 0x30 && k > 1)
                    ||| val_of_digits(t.subrange(0, k)) > u128::MAX as nat
                },
            }
        }),
{
    let ghost t = s@.skip(i as int);
    proof {
        lemma_digit_run_len_props(t);
        assert(forall|m: int| 0 <= m < t.len() ==> t[m] == s@[i + m]);
    }
    let ghost k = digit_run_len(t) as int;
    let mut j = i;
    let mut acc: u128 = 0;
    while j < s.len() && 0x30 <= s[j] && s[j] <= 0x39
        invariant
            i <= j <= s@.len(),
            t == s@.skip(i as int),
            k == digit_run_len(t) as int,
            k <= t.len(),
            forall|m: int| 0 <= m < t.len() ==> t[m] == s@[i + m],
            digit_run_len(t) == (j - i) + digit_run_len(s@.skip(j as int)),
            forall|m: int| i <= m < j ==> is_digit_byte(s@[m]),
            acc as nat == val_of_digits(s@.subrange(i as int, j as int)),
        decreases s@.len() - j,
    {
        let d: u8 = s[j] - 0x30;
        proof {
            assert(s@.subrange(i as int, j + 1).drop_last() =~= s@.subrange(i as int, j as int));
            assert(s@.subrange(i as int, j + 1).last() == s@[j as int]);
        }
        if acc > (u128::MAX - (d as u128)) / 10 {
            // The run continues past `j`, so the full number is at
            // least the part already read, which no longer fits.
            proof {
                assert(s@.skip(j as int)[0] == s@[j as int]);
                assert(digit_run_len(s@.skip(j as int)) >= 1);
                let full = t.subrange(0, k);
                let part = s@.subrange(i as int, j + 1);
                assert(acc * 10 + d > u128::MAX) by (nonlinear_arith)
                    requires
                        acc > (u128::MAX - (d as u128)) / 10,
                        0 <= d <= 9,
                ;
                assert(val_of_digits(part) == acc as nat * 10 + digit_val(s@[j as int]));
                assert(digit_run_len(s@.skip(j as int)) >= 1);
                assert(k >= j + 1 - i);
                assert(full =~= part + s@.subrange(j + 1, i + k));
                lemma_val_append_ge(part, s@.subrange(j + 1, i + k));
                assert(val_of_digits(full) > u128::MAX as nat);
            }
            return None;
        }
        proof {
            assert(s@.skip(j as int)[0] == s@[j as int]);
            assert(s@.skip(j as int).drop_first() =~= s@.skip(j + 1));
            assert(digit_run_len(s@.skip(j as int)) == 1 + digit_run_len(s@.skip(j + 1)));
        }
        acc = acc * 10 + (d as u128);
        j += 1;
    }
    proof {
        assert(digit_run_len(s@.skip(j as int)) == 0);
        assert(k == j - i);
        assert(t.subrange(0, k) =~= s@.subrange(i as int, j as int));
    }
    if j == i {
        return None;
    }
    if s[i] == 0x30 && j > i + 1 {
        proof {
            assert(t[0] == s@[i as int]);
        }
        return None;
    }
    Some((acc, j))
}

/// Parses threshold-file bytes: `Some(l)` exactly when the bytes are
/// the canonical encoding of `l`, `None` on every other input.
pub fn parse_thresholds(s: &Vec<u8>) -> (r: Option<Vec<u128>>)
    ensures
        r matches Some(v) ==> s@ == spec_encode_list(v@) && spec_parse_list(s@) == Some(v@),
        r is None ==> spec_parse_list(s@) is None && forall|l: Seq<u128>| s@ != spec_encode_list(
            l,
        ),
{
    let r = parse_list_exec(s);
    proof {
        match spec_parse_list(s@) {
            Some(l) => {
                lemma_parse_sound(s@, l);
            },
            None => {
                assert forall|l: Seq<u128>| s@ != spec_encode_list(l) by {
                    if s@ == spec_encode_list(l) {
                        lemma_parse_of_encoding(l);
                    }
                }
            },
        }
    }
    r
}

/// Parses threshold-file bytes against `spec_parse_list`.
fn parse_list_exec(s: &Vec<u8>) -> (r: Option<Vec<u128>>)
    ensures
        match r {
            Some(v) => spec_parse_list(s@) == Some(v@),
            None => spec_parse_list(s@) is None,
        },
{
    if s.len() < 2 || s[0] != LBRACKET {
        return None;
    }
    if s.len() == 2 && s[1] == RBRACKET {
        let empty: Vec<u128> = Vec::new();
        assert(empty@ =~= Seq::<u128>::empty());
        return Some(empty);
    }
    let mut out: Vec<u128> = Vec::new();
    let mut i: usize = 1;
    proof {
        match spec_parse_items(s@.skip(1)) {
            Some(rest) => {
                assert(out@ + rest =~= rest);
            },
            None => {},
        }
    }
    loop
        invariant
            1 <= i <= s@.len(),
            s@.len() >= 2,
            s@[0] == LBRACKET,
            !(s@.len() == 2 && s@[1] == RBRACKET),
            spec_parse_list(s@) == spec_parse_items(s@.skip(1)),
            match spec_parse_items(s@.skip(i as int)) {
                Some(rest) => spec_parse_items(s@.skip(1)) == Some(out@ + rest),
                None => spec_parse_items(s@.skip(1)) is None,
            },
        decreases s@.len() - i,
    {
        let ghost t = s@.skip(i as int);
        proof {
            lemma_digit_run_len_props(t);
            assert(forall|m: int| 0 <= m < t.len() ==> t[m] == s@[i + m]);
        }
        let ghost k = digit_run_len(t) as int;
        match scan_number(s, i) {
            None => {
                assert(spec_parse_items(t) is None);
                return None;
            },
            Some((v, j)) => {
                assert(j == i + k && k >= 1);
                let ghost out_pre = out@;
                out.push(v);
                if j < s.len() && s[j] == COMMA {
                    proof {
                        assert(t[k] == s@[j as int]);
                        assert(k < t.len());
                        assert(s@.skip(j + 1) =~= t.skip(k + 1));
                        match spec_parse_items(t.skip(k + 1)) {
                            Some(rest) => {
                                assert(spec_parse_items(t) == Some(seq![v] + rest));
                                assert(out@ + rest =~= out_pre + (seq![v] + rest));
                            },
                            None => {
                                assert(spec_parse_items(t) is None);
                            },
                        }
                    }
                    i = j + 1;
                } else if j == s.len() - 1 && s[j] == RBRACKET {
                    proof {
                        assert(t[k] == s@[j as int]);
                        assert(k == t.len() - 1);
                        assert(!(k < t.len() && t[k] == COMMA));
                        assert(spec_parse_items(t) == Some(seq![v]));
                        assert(out@ =~= out_pre + seq![v]);
                    }
                    return Some(out);
                } else {
                    proof {
                        if k < t.len() {
                            assert(t[k] == s@[j as int]);
                        }
                        assert(spec_parse_items(t) is None);
                    }
                    return None;
                }
            },
        }
    }
}

} // verus!

