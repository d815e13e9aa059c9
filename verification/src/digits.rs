//! Decimal digit strings: the mathematical decimal representation of a
//! natural number as a sequence of ASCII bytes, the value denoted by a
//! digit sequence, and the facts relating the two. The threshold-file
//! codec and the command parser both build on these.

use vstd::prelude::*;

verus! {

/// Whether a byte is an ASCII decimal digit, `'0'` through `'9'`.
pub open spec fn is_digit_byte(b: u8) -> bool {
    0x30 <= b <= 0x39
}

/// Numeric value of a digit byte (zero for a non-digit, which callers
/// never rely on).
pub open spec fn digit_val(b: u8) -> nat {
    if 0x30 <= b {
        (b - 0x30) as nat
    } else {
        0
    }
}

/// The number denoted by a digit sequence, most significant digit
/// first: the usual base-10 reading.
pub open spec fn val_of_digits(s: Seq<u8>) -> nat
    decreases s.len(),
{
    if s.len() == 0 {
        0
    } else {
        val_of_digits(s.drop_last()) * 10 + digit_val(s.last())
    }
}

/// The canonical decimal representation of `n`: its digits, most
/// significant first, with no sign and no leading zero.
pub open spec fn spec_digits(n: nat) -> Seq<u8>
    decreases n,
{
    if n < 10 {
        seq![(0x30 + n) as u8]
    } else {
        spec_digits(n / 10).push((0x30 + n % 10) as u8)
    }
}

/// A digit sequence is canonical when it is nonempty, all digits, and
/// free of leading zeros (a lone `'0'` is allowed).
pub open spec fn is_canonical_digits(s: Seq<u8>) -> bool {
    &&& s.len() >= 1
    &&& forall|i: int| 0 <= i < s.len() ==> is_digit_byte(s[i])
    &&& (s[0] != 0x30 || s.len() == 1)
}

/// Length of the run of digit bytes at the front of `s`.
pub open spec fn digit_run_len(s: Seq<u8>) -> nat
    decreases s.len(),
{
    if s.len() > 0 && is_digit_byte(s[0]) {
        1 + digit_run_len(s.drop_first())
    } else {
        0
    }
}

/// The canonical representation is canonical: nonempty, all digits,
/// and starting above `'0'` whenever the number is nonzero.
pub proof fn lemma_spec_digits_canonical(n: nat)
    ensures
        is_canonical_digits(spec_digits(n)),
        n > 0 ==> spec_digits(n)[0] != 0x30,
    decreases n,
{
    if n < 10 {
    } else {
        lemma_spec_digits_canonical(n / 10);
        assert(n / 10 >= 1);
        let t = spec_digits(n / 10);
        let s = spec_digits(n);
        assert(s == t.push((0x30 + n % 10) as u8));
        assert(s[0] == t[0]);
        assert(forall|i: int| 0 <= i < s.len() ==> is_digit_byte(#[trigger] s[i])) by {
            assert(forall|i: int| 0 <= i < t.len() ==> s[i] == t[i]);
        }
    }
}

/// Reading back the canonical representation of `n` yields `n`.
pub proof fn lemma_val_of_spec_digits(n: nat)
    ensures
        val_of_digits(spec_digits(n)) == n,
    decreases n,
{
    if n < 10 {
        let s = spec_digits(n);
        assert(s.drop_last() =~= Seq::<u8>::empty());
        assert(val_of_digits(Seq::<u8>::empty()) == 0);
        assert(s.last() == (0x30 + n) as u8);
        assert(val_of_digits(s) == digit_val((0x30 + n) as u8));
    } else {
        lemma_val_of_spec_digits(n / 10);
        let t = spec_digits(n / 10);
        let s = spec_digits(n);
        assert(s.drop_last() =~= t);
        assert(val_of_digits(s) == val_of_digits(t) * 10 + digit_val((0x30 + n % 10) as u8));
        assert(n / 10 * 10 + n % 10 == n);
    }
}

/// A digit sequence whose first digit is above `'0'` denotes a
/// positive number.
pub proof fn lemma_val_positive(s: Seq<u8>)
    requires
        s.len() >= 1,
        forall|i: int| 0 <= i < s.len() ==> is_digit_byte(s[i]),
        s[0] != 0x30,
    ensures
        val_of_digits(s) >= 1,
    decreases s.len(),
{
    if s.len() == 1 {
        assert(digit_val(s[0]) >= 1);
    } else {
        let t = s.drop_last();
        assert(forall|i: int| 0 <= i < t.len() ==> is_digit_byte(#[trigger] t[i])) by {
            assert(forall|i: int| 0 <= i < t.len() ==> t[i] == s[i]);
        }
        lemma_val_positive(t);
    }
}

/// A canonical digit sequence is the canonical representation of the
/// number it denotes: reading and printing are mutually inverse.
pub proof fn lemma_spec_digits_of_val(s: Seq<u8>)
    requires
        is_canonical_digits(s),
    ensures
        spec_digits(val_of_digits(s)) == s,
    decreases s.len(),
{
    if s.len() == 1 {
        assert(s.drop_last() =~= Seq::<u8>::empty());
        let v = val_of_digits(s);
        assert(v == digit_val(s[0]));
        assert(v < 10);
        assert(spec_digits(v) =~= s);
    } else {
        let t = s.drop_last();
        assert(forall|i: int| 0 <= i < t.len() ==> t[i] == s[i]);
        assert(is_canonical_digits(t));
        lemma_spec_digits_of_val(t);
        lemma_val_positive(t);
        let w = val_of_digits(t);
        let d = digit_val(s.last());
        let v = val_of_digits(s);
        assert(v == w * 10 + d);
        assert(d <= 9);
        assert(v / 10 == w && v % 10 == d) by (nonlinear_arith)
            requires
                v == w * 10 + d,
                0 <= d <= 9,
                w >= 0,
        ;
        assert(v >= 10);
        assert(spec_digits(v) == spec_digits(w).push((0x30 + v % 10) as u8));
        assert((0x30 + v % 10) as u8 == s.last());
        assert(spec_digits(v) =~= s);
    }
}

/// Appending more digit bytes never shrinks the denoted value.
pub proof fn lemma_val_append_ge(a: Seq<u8>, b: Seq<u8>)
    ensures
        val_of_digits(a + b) >= val_of_digits(a),
    decreases b.len(),
{
    if b.len() == 0 {
        assert(a + b =~= a);
    } else {
        lemma_val_append_ge(a, b.drop_last());
        assert((a + b).drop_last() =~= a + b.drop_last());
        assert((a + b).len() > 0);
        let w = val_of_digits(a + b.drop_last());
        assert(val_of_digits(a + b) == w * 10 + digit_val((a + b).last()));
        assert(w * 10 >= w);
    }
}

/// The digit run at the front of `s` is exactly that: digits up to its
/// length, then either the end of `s` or a non-digit byte.
pub proof fn lemma_digit_run_len_props(s: Seq<u8>)
    ensures
        digit_run_len(s) <= s.len(),
        forall|i: int| 0 <= i < digit_run_len(s) ==> is_digit_byte(s[i]),
        digit_run_len(s) < s.len() ==> !is_digit_byte(s[digit_run_len(s) as int]),
    decreases s.len(),
{
    if s.len() > 0 && is_digit_byte(s[0]) {
        let t = s.drop_first();
        lemma_digit_run_len_props(t);
        assert(forall|i: int| 0 <= i < t.len() ==> t[i] == s[i + 1]);
        assert(digit_run_len(s) == 1 + digit_run_len(t));
        assert forall|i: int| 0 <= i < digit_run_len(s) implies is_digit_byte(s[i]) by {
            if i > 0 {
                assert(is_digit_byte(t[i - 1]));
                assert(t[i - 1] == s[i]);
            }
        }
    }
}

/// A run of digits followed by a non-digit (or by nothing) is the
/// whole digit run: its length is determined.
pub proof fn lemma_digit_run_len_of(d: Seq<u8>, rest: Seq<u8>)
    requires
        forall|i: int| 0 <= i < d.len() ==> is_digit_byte(d[i]),
        rest.len() == 0 || !is_digit_byte(rest[0]),
    ensures
        digit_run_len(d + rest) == d.len(),
    decreases d.len(),
{
    if d.len() == 0 {
        assert(d + rest =~= rest);
        if rest.len() > 0 {
            assert(!is_digit_byte((d + rest)[0]));
        }
    } else {
        let t = d.drop_first();
        assert(forall|i: int| 0 <= i < t.len() ==> t[i] == d[i + 1]);
        lemma_digit_run_len_of(t, rest);
        assert((d + rest).drop_first() =~= t + rest);
        assert(is_digit_byte((d + rest)[0]));
    }
}

/// Appends the canonical decimal digits of `n` to `out`.
pub fn push_digits(out: &mut Vec<u8>, n: u128)
    ensures
        final(out)@ == old(out)@ + spec_digits(n as nat),
    decreases n,
{
    if n < 10 {
        out.push(0x30 + (n as u8));
        assert(out@ =~= old(out)@ + spec_digits(n as nat));
    } else {
        let q = n / 10;
        let r = (n % 10) as u8;
        push_digits(out, q);
        out.push(0x30 + r);
        assert(out@ =~= old(out)@ + spec_digits(n as nat));
    }
}

} // verus!
