//! Fixed-point values: a decimal with exactly one fractional digit is held
//! scaled by ten, so the text `-3.7` denotes the scaled value `-37`.
//!
//! The text form is an optional leading `-`, one or more integer digits, a
//! single `.`, and exactly one fractional digit.  A value is accepted only if
//! its scaled form fits the 32-bit signed range.

use vstd::prelude::*;

verus! {

/// Smallest scaled value a record may carry (the 32-bit signed minimum).
pub const VALUE_MIN: i64 = -0x8000_0000;

/// Largest scaled value a record may carry (the 32-bit signed maximum).
pub const VALUE_MAX: i64 = 0x7fff_ffff;

pub open spec fn is_digit(b: u8) -> bool {
    48 <= b && b <= 57
}

pub open spec fn all_digits(s: Seq<u8>) -> bool {
    forall|i: int| 0 <= i < s.len() ==> is_digit(#[trigger] s[i])
}

/// The number denoted by a sequence of decimal digit bytes, most significant
/// first.
pub open spec fn digits_val(s: Seq<u8>) -> int
    decreases s.len(),
{
    if s.len() == 0 {
        0
    } else {
        digits_val(s.drop_last()) * 10 + (s.last() - 48)
    }
}

/// Whether the text starts with a minus sign.
pub open spec fn fixed_is_neg(s: Seq<u8>) -> bool {
    s.len() > 0 && s[0] == 45
}

/// The text with any leading minus sign removed.
pub open spec fn fixed_body(s: Seq<u8>) -> Seq<u8> {
    if fixed_is_neg(s) {
        s.subrange(1, s.len() as int)
    } else {
        s
    }
}

/// Grammar of a fixed-point literal: optional `-`, one or more digits, `.`,
/// exactly one fractional digit.
pub open spec fn wf_fixed(s: Seq<u8>) -> bool {
    let b = fixed_body(s);
    &&& b.len() >= 3
    &&& all_digits(b.subrange(0, b.len() - 2))
    &&& b[b.len() - 2] == 46
    &&& is_digit(b[b.len() - 1])
}

/// Magnitude of the scaled value: integer digits times ten plus the
/// fractional digit.
pub open spec fn fixed_mag(s: Seq<u8>) -> int {
    let b = fixed_body(s);
    digits_val(b.subrange(0, b.len() - 2)) * 10 + (b[b.len() - 1] - 48)
}

/// The scaled value denoted by the text.
pub open spec fn fixed_val(s: Seq<u8>) -> int {
    if fixed_is_neg(s) {
        -fixed_mag(s)
    } else {
        fixed_mag(s)
    }
}

/// Whether the scaled value fits the accepted range.
pub open spec fn fixed_in_range(s: Seq<u8>) -> bool {
    VALUE_MIN <= fixed_val(s) <= VALUE_MAX
}

/// A well-formed literal whose value is representable.
pub open spec fn valid_fixed(s: Seq<u8>) -> bool {
    wf_fixed(s) && fixed_in_range(s)
}

pub proof fn lemma_digits_val_nonneg(s: Seq<u8>)
    requires
        all_digits(s),
    ensures
        digits_val(s) >= 0,
    decreases s.len(),
{
    if s.len() > 0 {
        assert(is_digit(s[s.len() - 1]));
        lemma_digits_val_nonneg(s.drop_last());
    }
}

/// Extending a digit string to the right can only increase its value.
pub proof fn lemma_digits_val_prefix(s: Seq<u8>, i: int)
    requires
        all_digits(s),
        0 <= i <= s.len(),
    ensures
        digits_val(s.subrange(0, i)) <= digits_val(s),
    decreases s.len() - i,
{
    if i == s.len() {
        assert(s.subrange(0, i) =~= s);
    } else {
        let t = s.subrange(0, i + 1);
        assert(t.drop_last() =~= s.subrange(0, i));
        assert(is_digit(s[i]));
        lemma_digits_val_nonneg(s.subrange(0, i));
        lemma_digits_val_prefix(s, i + 1);
    }
}

/// Parses the bytes `buf[from..to]` as a fixed-point literal, yielding the
/// scaled value exactly when the text is well formed and representable.
#[verifier::loop_isolation(false)]
pub fn parse_fixed_range(buf: &Vec<u8>, from: usize, to: usize) -> (r: Option<i32>)
    requires
        from <= to <= buf.len(),
    ensures
        ({
            let s = buf@.subrange(from as int, to as int);
            match r {
                Some(v) => valid_fixed(s) && v == fixed_val(s),
                None => !valid_fixed(s),
            }
        }),
{
    let ghost s = buf@.subrange(from as int, to as int);
    let mut neg: bool = false;
    let mut i: usize = from;
    if to == from {
        return None;
    }
    if buf[from] == 45 {
        neg = true;
        i = from + 1;
    }
    proof {
        assert(neg == fixed_is_neg(s));
        assert(fixed_body(s) =~= buf@.subrange(i as int, to as int));
    }
    let ghost b = fixed_body(s);
    if to - i < 3 {
        return None;
    }
    if buf[to - 2] != 46 {
        assert(b[b.len() - 2] == buf@[to - 2]);
        return None;
    }
    let last = buf[to - 1];
    if last < 48 || last > 57 {
        assert(b[b.len() - 1] == buf@[to - 1]);
        return None;
    }
    let intpart_end: usize = to - 2;
    let ghost d = b.subrange(0, b.len() - 2);
    proof {
        assert(d =~= buf@.subrange(i as int, intpart_end as int));
    }
    let mut acc: i64 = 0;
    let mut j: usize = i;
    while j < intpart_end
        invariant
            i <= j <= intpart_end,
            intpart_end == to - 2,
            i <= to <= buf.len(),
            d == buf@.subrange(i as int, intpart_end as int),
            all_digits(d.subrange(0, j - i)),
            acc == digits_val(d.subrange(0, j - i)),
            0 <= acc <= 0x8000_0000,
        decreases intpart_end - j,
    {
        let c = buf[j];
        if c < 48 || c > 57 {
            assert(!is_digit(d[j - i]));
            assert(!all_digits(d));
            return None;
        }
        proof {
            let pre = d.subrange(0, j - i);
            let ext = d.subrange(0, j + 1 - i);
            assert(ext.drop_last() =~= pre);
            assert(ext.last() == buf@[j as int]);
        }
        acc = acc * 10 + ((c - 48) as i64);
        j = j + 1;
        if acc > 0x8000_0000 {
            proof {
                if valid_fixed(s) {
                    lemma_digits_val_prefix(d, j - i);
                    lemma_digits_val_nonneg(d);
                    assert(fixed_mag(s) >= digits_val(d) * 10);
                    assert(digits_val(d) * 10 > 0x8000_0000);
                }
            }
            return None;
        }
    }
    proof {
        assert(d.subrange(0, (intpart_end - i) as int) =~= d);
    }
    let mag: i64 = acc * 10 + ((last - 48) as i64);
    proof {
        assert(b[b.len() - 2] == buf@[to - 2]);
        assert(b[b.len() - 1] == buf@[to - 1]);
        assert(wf_fixed(s));
        assert(mag == fixed_mag(s));
    }
    if neg {
        if mag > 0x8000_0000 {
            return None;
        }
        Some((-mag) as i32)
    } else {
        if mag > 0x7fff_ffff {
            return None;
        }
        Some(mag as i32)
    }
}

/// Parses a whole byte string as a fixed-point literal.
pub fn parse_fixed(bytes: &Vec<u8>) -> (r: Option<i32>)
    ensures
        ({
            let s = bytes@;
            match r {
                Some(v) => valid_fixed(s) && v == fixed_val(s),
                None => !valid_fixed(s),
            }
        }),
{
    let r = parse_fixed_range(bytes, 0, bytes.len());
    proof {
        assert(bytes@.subrange(0, bytes@.len() as int) =~= bytes@);
    }
    r
}

/// Decimal digit bytes of `n`, most significant first, with no leading
/// zeros except for `0` itself.
pub open spec fn dec_digits(n: nat) -> Seq<u8>
    decreases n,
{
    if n < 10 {
        seq![(48 + n) as u8]
    } else {
        dec_digits(n / 10).push((48 + n % 10) as u8)
    }
}

/// Canonical text of a scaled value: sign, integer digits, `.`, one
/// fractional digit.
pub open spec fn fixed_repr(v: int) -> Seq<u8> {
    let mag = if v < 0 { -v } else { v };
    let sign: Seq<u8> = if v < 0 { seq![45u8] } else { Seq::empty() };
    sign + dec_digits((mag / 10) as nat) + seq![46u8, (48 + mag % 10) as u8]
}

pub proof fn lemma_dec_digits_wf(n: nat)
    ensures
        dec_digits(n).len() >= 1,
        all_digits(dec_digits(n)),
        digits_val(dec_digits(n)) == n,
    decreases n,
{
    if n < 10 {
        let s = dec_digits(n);
        assert(s.drop_last() =~= Seq::<u8>::empty());
        assert(digits_val(Seq::<u8>::empty()) == 0);
    } else {
        lemma_dec_digits_wf(n / 10);
        let s = dec_digits(n);
        assert(s.drop_last() =~= dec_digits(n / 10));
        vstd::arithmetic::div_mod::lemma_fundamental_div_mod(n as int, 10);
        assert(digits_val(s) == (n / 10) * 10 + (n % 10));
    }
}

/// Formatting then parsing restores the scaled value exactly.
pub proof fn lemma_fixed_roundtrip(v: int)
    requires
        VALUE_MIN <= v <= VALUE_MAX,
    ensures
        valid_fixed(fixed_repr(v)),
        fixed_val(fixed_repr(v)) == v,
{
    let mag = if v < 0 { -v } else { v };
    let dd = dec_digits((mag / 10) as nat);
    let s = fixed_repr(v);
    lemma_dec_digits_wf((mag / 10) as nat);
    let b = fixed_body(s);
    if v < 0 {
        assert(s[0] == 45);
        assert(b =~= dd + seq![46u8, (48 + mag % 10) as u8]);
    } else {
        assert(is_digit(s[0]));
        assert(b =~= dd + seq![46u8, (48 + mag % 10) as u8]);
    }
    assert(b.subrange(0, b.len() - 2) =~= dd);
    assert(b[b.len() - 2] == 46);
    assert(b[b.len() - 1] == (48 + mag % 10) as u8);
    assert(fixed_mag(s) == (mag / 10) * 10 + mag % 10);
    vstd::arithmetic::div_mod::lemma_fundamental_div_mod(mag, 10);
}

/// Renders a scaled value as fixed-point text, one fractional digit.
#[verifier::loop_isolation(false)]
pub fn format_fixed(v: i64) -> (r: Vec<u8>)
    requires
        VALUE_MIN <= v <= VALUE_MAX,
    ensures
        r@ == fixed_repr(v as int),
{
    let mut out: Vec<u8> = Vec::new();
    let mag: u64 = if v < 0 {
        out.push(45);
        (-v) as u64
    } else {
        v as u64
    };
    let ghost sign: Seq<u8> = if v < 0 { seq![45u8] } else { Seq::empty() };
    assert(out@ == sign);
    let whole: u64 = mag / 10;
    let mut digits: Vec<u8> = Vec::new();
    let mut n: u64 = whole;
    digits.push(48 + (n % 10) as u8);
    n = n / 10;
    proof {
        if whole >= 10 {
            assert(dec_digits(whole as nat) =~= dec_digits((whole / 10) as nat) + seq![
                ((48 + whole % 10) as u8),
            ]);
        } else {
            assert(dec_digits(whole as nat) =~= seq![((48 + whole % 10) as u8)]);
        }
    }
    while n > 0
        invariant
            digits@.len() >= 1,
            dec_digits(whole as nat) == if n > 0 {
                dec_digits(n as nat) + digits@
            } else {
                digits@
            },
        decreases n,
    {
        let ghost prev = digits@;
        let d: u8 = 48 + (n % 10) as u8;
        proof {
            if n >= 10 {
                assert(dec_digits(n as nat) =~= dec_digits((n / 10) as nat) + seq![d]);
            } else {
                assert(dec_digits(n as nat) =~= seq![d]);
            }
        }
        digits.insert(0, d);
        n = n / 10;
        proof {
            assert(digits@ =~= seq![d] + prev);
            if n == 0 {
                assert(dec_digits(whole as nat) =~= digits@);
            } else {
                assert(dec_digits(whole as nat) =~= dec_digits(n as nat) + digits@);
            }
        }
    }
    let mut k: usize = 0;
    while k < digits.len()
        invariant
            0 <= k <= digits@.len(),
            out@ == sign + digits@.subrange(0, k as int),
        decreases digits@.len() - k,
    {
        out.push(digits[k]);
        k = k + 1;
        assert(out@ =~= sign + digits@.subrange(0, k as int));
    }
    proof {
        assert(digits@.subrange(0, digits@.len() as int) =~= digits@);
    }
    out.push(46);
    out.push(48 + (mag % 10) as u8);
    proof {
        assert(out@ =~= fixed_repr(v as int));
    }
    out
}

} // verus!
