//! Decimal codec for the numeric fields of the wire formats: the value of a
//! digit string, the canonical digit string of a value, and bounds-checked
//! executable conversions in both directions.

use vstd::prelude::*;

verus! {

/// ASCII decimal digit.
pub open spec fn is_digit(b: u8) -> bool {
    48 <= b <= 57
}

/// Every byte a digit.
pub open spec fn all_digits(s: Seq<u8>) -> bool {
    forall|k: int| 0 <= k < s.len() ==> is_digit(#[trigger] s[k])
}

/// Value of a digit string, most significant first.
pub open spec fn digits_val(s: Seq<u8>) -> int
    decreases s.len(),
{
    if s.len() == 0 {
        0
    } else {
        digits_val(s.drop_last()) * 10 + (s.last() - 48)
    }
}

/// Canonical decimal digits of `n`: no leading zero.
pub open spec fn dec_of(n: int) -> Seq<u8>
    decreases n,
{
    if n < 10 {
        seq![(48 + if n >= 0 { n } else { 0 }) as u8]
    } else {
        dec_of(n / 10).push((48 + n % 10) as u8)
    }
}

/// The canonical digits are digits, at least one, value preserved, and no
/// leading zero unless the value is zero itself.
pub proof fn lemma_dec_of(n: int)
    requires
        n >= 0,
    ensures
        dec_of(n).len() >= 1,
        all_digits(dec_of(n)),
        digits_val(dec_of(n)) == n,
        dec_of(n)[0] == 48 ==> n == 0,
    decreases n,
{
    if n < 10 {
        assert(digits_val(dec_of(n)) == digits_val(dec_of(n).drop_last()) * 10 + n);
        assert(dec_of(n).drop_last() =~= Seq::<u8>::empty());
    } else {
        lemma_dec_of(n / 10);
        let d = dec_of(n / 10);
        assert(d.push((48 + n % 10) as u8).drop_last() =~= d);
        assert(digits_val(dec_of(n)) == digits_val(d) * 10 + n % 10);
        vstd::arithmetic::div_mod::lemma_fundamental_div_mod(n, 10);
        assert(forall|k: int|
            0 <= k < dec_of(n).len() ==> is_digit(#[trigger] dec_of(n)[k]));
    }
}

/// Appending digits never lowers the value.
pub proof fn lemma_digits_val_prefix_le(s: Seq<u8>, i: int)
    requires
        0 <= i <= s.len(),
        all_digits(s),
    ensures
        digits_val(s.subrange(0, i)) <= digits_val(s),
        digits_val(s) >= 0,
    decreases s.len() - i,
{
    lemma_digits_val_nonneg(s.subrange(0, i));
    if i == s.len() {
        assert(s.subrange(0, i) =~= s);
        lemma_digits_val_nonneg(s);
    } else {
        lemma_digits_val_prefix_le(s, i + 1);
        let p = s.subrange(0, i);
        let q = s.subrange(0, i + 1);
        assert(q.drop_last() =~= p);
        assert(q.last() == s[i]);
        lemma_digits_val_nonneg(p);
        assert(digits_val(q) == digits_val(p) * 10 + (s[i] - 48));
        assert(digits_val(p) * 10 >= digits_val(p)) by (nonlinear_arith)
            requires
                digits_val(p) >= 0,
        ;
    }
}

/// A digit string's value is never negative.
pub proof fn lemma_digits_val_nonneg(s: Seq<u8>)
    requires
        all_digits(s),
    ensures
        digits_val(s) >= 0,
    decreases s.len(),
{
    if s.len() > 0 {
        assert(all_digits(s.drop_last()));
        lemma_digits_val_nonneg(s.drop_last());
        assert(digits_val(s.drop_last()) * 10 >= 0) by (nonlinear_arith)
            requires
                digits_val(s.drop_last()) >= 0,
        ;
    }
}

/// End of the maximal digit run starting at `from`.
pub open spec fn digits_end(s: Seq<u8>, from: int) -> int
    decreases s.len() - from,
{
    if 0 <= from < s.len() && is_digit(s[from]) {
        digits_end(s, from + 1)
    } else {
        from
    }
}

/// The digit run ends within the string, covers only digits, and stops at
/// the first non-digit.
pub proof fn lemma_digits_end(s: Seq<u8>, from: int)
    requires
        0 <= from <= s.len(),
    ensures
        from <= digits_end(s, from) <= s.len(),
        all_digits(s.subrange(from, digits_end(s, from))),
        digits_end(s, from) < s.len() ==> !is_digit(s[digits_end(s, from)]),
    decreases s.len() - from,
{
    if 0 <= from < s.len() && is_digit(s[from]) {
        lemma_digits_end(s, from + 1);
        let de = digits_end(s, from);
        assert forall|k: int| 0 <= k < de - from implies is_digit(
            #[trigger] s.subrange(from, de)[k],
        ) by {
            if k > 0 {
                assert(s.subrange(from + 1, de)[k - 1] == s[from + k]);
            }
        }
    }
}

/// End of the maximal digit run starting at `from`.
pub fn digits_end_at(s: &Vec<u8>, from: usize) -> (r: usize)
    requires
        from <= s@.len(),
    ensures
        r == digits_end(s@, from as int),
{
    let mut i: usize = from;
    while i < s.len() && 48 <= s[i] && s[i] <= 57
        invariant
            from <= i <= s@.len(),
            digits_end(s@, from as int) == digits_end(s@, i as int),
        decreases s@.len() - i,
    {
        i = i + 1;
    }
    i
}

/// The canonical decimal digits of `n`, as bytes.
pub fn u32_to_dec(n: u32) -> (v: Vec<u8>)
    ensures
        v@ == dec_of(n as int),
    decreases n,
{
    if n < 10 {
        let mut v: Vec<u8> = Vec::new();
        v.push(48 + n as u8);
        proof {
            assert(v@ =~= dec_of(n as int));
        }
        v
    } else {
        let mut v = u32_to_dec(n / 10);
        v.push(48 + (n % 10) as u8);
        proof {
            assert(v@ =~= dec_of(n as int));
        }
        v
    }
}

/// Value of the digit run `s[from .. to]`, refused when it does not fit.
pub fn parse_u32_digits(s: &Vec<u8>, from: usize, to: usize) -> (r: Option<u32>)
    requires
        from <= to <= s@.len(),
        to - from >= 1,
        all_digits(s@.subrange(from as int, to as int)),
    ensures
        match r {
            Option::Some(v) => v as int == digits_val(s@.subrange(from as int, to as int)),
            Option::None => digits_val(s@.subrange(from as int, to as int)) > u32::MAX,
        },
{
    let ghost whole = s@.subrange(from as int, to as int);
    let mut acc: u32 = 0;
    let mut i: usize = from;
    while i < to
        invariant
            from <= i <= to <= s@.len(),
            whole == s@.subrange(from as int, to as int),
            all_digits(whole),
            acc as int == digits_val(s@.subrange(from as int, i as int)),
        decreases to - i,
    {
        proof {
            assert(whole[i - from] == s@[i as int]);
            assert(is_digit(s@[i as int]));
        }
        let d: u8 = s[i] - 48;
        proof {
            assert(s@.subrange(from as int, i + 1).drop_last() =~= s@.subrange(
                from as int,
                i as int,
            ));
            assert(s@.subrange(from as int, i + 1).last() == s@[i as int]);
        }
        if acc > (u32::MAX - d as u32) / 10 {
            proof {
                let part = s@.subrange(from as int, i + 1);
                assert(digits_val(part) == acc * 10 + d);
                assert(acc * 10 + d > u32::MAX) by (nonlinear_arith)
                    requires
                        acc > (u32::MAX - d as u32) / 10,
                        0 <= d <= 9,
                        acc <= u32::MAX,
                ;
                assert(forall|k: int|
                    0 <= k < part.len() ==> is_digit(#[trigger] part[k]));
                lemma_digits_val_subrange_le(s@, from as int, i + 1, to as int);
            }
            return Option::None;
        }
        acc = acc * 10 + d as u32;
        i = i + 1;
    }
    proof {
        assert(s@.subrange(from as int, i as int) =~= whole);
    }
    Option::Some(acc)
}

/// A digit run's value never drops when extended to the right.
proof fn lemma_digits_val_subrange_le(s: Seq<u8>, from: int, mid: int, to: int)
    requires
        0 <= from <= mid <= to <= s.len(),
        all_digits(s.subrange(from, to)),
    ensures
        digits_val(s.subrange(from, mid)) <= digits_val(s.subrange(from, to)),
{
    let whole = s.subrange(from, to);
    assert(s.subrange(from, mid) =~= whole.subrange(0, mid - from));
    lemma_digits_val_prefix_le(whole, mid - from);
}

} // verus!
