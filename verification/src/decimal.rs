//! Exact range checking of decimal number literals.
//!
//! The mean-stress correction factor is configured as a string holding a
//! number literal (`"0.5"`, `"1e-3"`, ...). The check that the value lies
//! in `[0, 1]` is done here exactly, over the digit string itself, with no
//! rounding: the literal's mathematical value `M * 10^(E - F)` (integer
//! mantissa `M` from the written digits, fraction length `F`, exponent
//! `E`) is compared against the interval bounds. The infinity and
//! not-a-number keywords are accepted literals that lie outside the
//! interval.

use vstd::prelude::*;

use vstd::arithmetic::power::pow;

verus! {

/// A decimal digit.
pub open spec fn is_digit(c: char) -> bool {
    0x30 <= c as u32 <= 0x39
}

/// The numeric value of a decimal digit.
pub open spec fn digit_val(c: char) -> int {
    c as u32 - 0x30
}

/// Every character is a decimal digit.
pub open spec fn all_digits(s: Seq<char>) -> bool {
    forall|i: int| 0 <= i < s.len() ==> is_digit(#[trigger] s[i])
}

/// The integer written by a digit string, most significant digit first.
pub open spec fn digits_val(s: Seq<char>) -> int
    decreases s.len(),
{
    if s.len() == 0 {
        0
    } else {
        digits_val(s.drop_last()) * 10 + digit_val(s.last())
    }
}

/// Case-insensitive match of a character against a lower-case letter.
pub open spec fn char_ci(c: char, l: char) -> bool {
    c == l || c as u32 + 0x20 == l as u32
}

/// The string starts with an explicit sign.
pub open spec fn has_sign(s: Seq<char>) -> bool {
    s.len() > 0 && (s[0] == '+' || s[0] == '-')
}

/// The string after its optional sign.
pub open spec fn body_of(s: Seq<char>) -> Seq<char> {
    if has_sign(s) {
        s.drop_first()
    } else {
        s
    }
}

/// The literal is negative.
pub open spec fn is_negative(s: Seq<char>) -> bool {
    s.len() > 0 && s[0] == '-'
}

/// The infinity keyword, short form.
pub open spec fn is_inf(b: Seq<char>) -> bool {
    b.len() == 3 && char_ci(b[0], 'i') && char_ci(b[1], 'n') && char_ci(b[2], 'f')
}

/// The infinity keyword, long form.
pub open spec fn is_infinity(b: Seq<char>) -> bool {
    &&& b.len() == 8
    &&& char_ci(b[0], 'i')
    &&& char_ci(b[1], 'n')
    &&& char_ci(b[2], 'f')
    &&& char_ci(b[3], 'i')
    &&& char_ci(b[4], 'n')
    &&& char_ci(b[5], 'i')
    &&& char_ci(b[6], 't')
    &&& char_ci(b[7], 'y')
}

/// The not-a-number keyword.
pub open spec fn is_nan(b: Seq<char>) -> bool {
    b.len() == 3 && char_ci(b[0], 'n') && char_ci(b[1], 'a') && char_ci(b[2], 'n')
}

/// The literal names one of the non-finite keywords.
pub open spec fn is_special(s: Seq<char>) -> bool {
    is_inf(body_of(s)) || is_infinity(body_of(s)) || is_nan(body_of(s))
}

/// The first position of the exponent marker `e`/`E`, or -1.
pub open spec fn find_exp(b: Seq<char>) -> int
    decreases b.len(),
{
    if b.len() == 0 {
        -1
    } else if char_ci(b[0], 'e') {
        0
    } else {
        let r = find_exp(b.drop_first());
        if r == -1 {
            -1
        } else {
            r + 1
        }
    }
}

/// The mantissa of the body: everything before the exponent marker.
pub open spec fn mantissa_of(b: Seq<char>) -> Seq<char> {
    if find_exp(b) == -1 {
        b
    } else {
        b.take(find_exp(b))
    }
}

/// The exponent part of the body: everything after the marker.
pub open spec fn exp_of(b: Seq<char>) -> Seq<char> {
    if find_exp(b) == -1 {
        Seq::empty()
    } else {
        b.skip(find_exp(b) + 1)
    }
}

/// The first position of the decimal point in the mantissa, or -1.
pub open spec fn find_dot(m: Seq<char>) -> int
    decreases m.len(),
{
    if m.len() == 0 {
        -1
    } else if m[0] == '.' {
        0
    } else {
        let r = find_dot(m.drop_first());
        if r == -1 {
            -1
        } else {
            r + 1
        }
    }
}

/// The digits before the decimal point.
pub open spec fn int_digits(m: Seq<char>) -> Seq<char> {
    if find_dot(m) == -1 {
        m
    } else {
        m.take(find_dot(m))
    }
}

/// The digits after the decimal point.
pub open spec fn frac_digits(m: Seq<char>) -> Seq<char> {
    if find_dot(m) == -1 {
        Seq::empty()
    } else {
        m.skip(find_dot(m) + 1)
    }
}

/// All the written digits of the mantissa, the decimal point removed.
pub open spec fn mantissa_digits(s: Seq<char>) -> Seq<char> {
    int_digits(mantissa_of(body_of(s))) + frac_digits(mantissa_of(body_of(s)))
}

/// The signed exponent written in the literal (0 when none is written).
pub open spec fn exp_val(s: Seq<char>) -> int {
    let e = exp_of(body_of(s));
    if is_negative(e) {
        -digits_val(body_of(e))
    } else {
        digits_val(body_of(e))
    }
}

/// The string is a number literal: an optional sign followed by one of
/// the keywords, or by digits with an optional decimal point and an
/// optional exponent (at least one mantissa digit, at least one exponent
/// digit where a marker is written).
pub open spec fn is_number_literal(s: Seq<char>) -> bool {
    let b = body_of(s);
    ||| is_special(s)
    ||| ({
        let m = mantissa_of(b);
        let e = exp_of(b);
        &&& all_digits(int_digits(m))
        &&& all_digits(frac_digits(m))
        &&& int_digits(m).len() + frac_digits(m).len() > 0
        &&& (find_exp(b) != -1 ==> all_digits(body_of(e)) && body_of(e).len() > 0)
    })
}

/// The literal's value lies in the closed interval `[0, 1]`.
///
/// The value of a finite literal with mantissa digits `D` (the written
/// digits, point removed), fraction length `F` and exponent `E` is
/// `digits_val(D) * 10^(E - F)`; it lies in the interval exactly when it
/// is zero, or positive with `digits_val(D) <= 10^(F - E)`. The keywords
/// lie outside.
pub open spec fn literal_in_unit_interval(s: Seq<char>) -> bool {
    if is_special(s) {
        false
    } else {
        let m = mantissa_digits(s);
        let f = frac_digits(mantissa_of(body_of(s))).len() as int;
        let e = exp_val(s);
        if digits_val(m) == 0 {
            true
        } else if is_negative(s) {
            false
        } else {
            f - e >= 0 && digits_val(m) <= pow(10, (f - e) as nat)
        }
    }
}

/// Every character is the digit zero.
pub open spec fn all_zeros(s: Seq<char>) -> bool {
    forall|i: int| 0 <= i < s.len() ==> #[trigger] s[i] == '0'
}

/// Correspondence between a digit character and its numeric value.
proof fn lemma_digit_char(c: char)
    ensures
        (c as u32 == 0x30) <==> c == '0',
        (c as u32 == 0x31) <==> c == '1',
{
    if c as u32 == 0x30 {
        assert(c == '0');
    }
    if c as u32 == 0x31 {
        assert(c == '1');
    }
}

/// A digit string of zeros writes the integer zero.
proof fn lemma_zeros_val(s: Seq<char>)
    requires
        all_zeros(s),
    ensures
        digits_val(s) == 0,
    decreases s.len(),
{
    if s.len() > 0 {
        assert(all_zeros(s.drop_last()));
        lemma_zeros_val(s.drop_last());
        assert(s.last() == '0');
    }
}

/// A digit string writes a non-negative integer.
proof fn lemma_digits_val_nonneg(s: Seq<char>)
    requires
        all_digits(s),
    ensures
        digits_val(s) >= 0,
    decreases s.len(),
{
    if s.len() > 0 {
        assert(all_digits(s.drop_last()));
        lemma_digits_val_nonneg(s.drop_last());
        assert(is_digit(s.last()));
        assert(digits_val(s.drop_last()) * 10 >= 0) by (nonlinear_arith)
            requires
                digits_val(s.drop_last()) >= 0,
        ;
    }
}

/// With the first nonzero digit at position `z`, the written integer lies
/// between the two neighbouring powers of ten.
proof fn lemma_digits_val_bounds(s: Seq<char>, z: int)
    requires
        all_digits(s),
        0 <= z < s.len(),
        forall|k: int| 0 <= k < z ==> #[trigger] s[k] == '0',
        s[z] != '0',
    ensures
        pow(10, (s.len() - z - 1) as nat) <= digits_val(s) < pow(10, (s.len() - z) as nat),
    decreases s.len(),
{
    reveal(pow);
    if z == s.len() - 1 {
        assert(all_zeros(s.drop_last()));
        lemma_zeros_val(s.drop_last());
        assert(digits_val(s) == digit_val(s.last()));
        lemma_digit_char(s[z]);
        assert(1 <= digit_val(s[z]) <= 9);
        assert(pow(10, 0) == 1);
        assert(pow(10, 1) == 10 * pow(10, 0));
    } else {
        let d = s.drop_last();
        assert(all_digits(d));
        assert(d[z] == s[z]);
        lemma_digits_val_bounds(d, z);
        let lo = pow(10, (d.len() - z - 1) as nat);
        let hi = pow(10, (d.len() - z) as nat);
        assert(pow(10, (s.len() - z - 1) as nat) == 10 * lo);
        assert(pow(10, (s.len() - z) as nat) == 10 * hi);
        let v = digits_val(d);
        assert(lo <= v < hi);
        assert(10 * lo <= 10 * v) by (nonlinear_arith)
            requires
                lo <= v,
        ;
        assert(10 * v + 9 < 10 * hi) by (nonlinear_arith)
            requires
                v < hi,
        ;
        assert(0 <= digit_val(s.last()) <= 9);
    }
}

/// With the first nonzero digit at position `z`, the written integer
/// equals the power of ten exactly when that digit is one and everything
/// after it is zero.
proof fn lemma_digits_val_exact(s: Seq<char>, z: int)
    requires
        all_digits(s),
        0 <= z < s.len(),
        forall|k: int| 0 <= k < z ==> #[trigger] s[k] == '0',
        s[z] != '0',
    ensures
        (digits_val(s) == pow(10, (s.len() - z - 1) as nat)) <==> (s[z] == '1' && forall|k: int|
            z < k < s.len() ==> #[trigger] s[k] == '0'),
    decreases s.len(),
{
    reveal(pow);
    if z == s.len() - 1 {
        assert(all_zeros(s.drop_last()));
        lemma_zeros_val(s.drop_last());
        assert(digits_val(s) == digit_val(s.last()));
        assert(pow(10, 0) == 1);
        lemma_digit_char(s[z]);
        assert(digit_val(s[z]) == 1 <==> s[z] == '1');
    } else {
        let d = s.drop_last();
        assert(all_digits(d));
        assert(d[z] == s[z]);
        lemma_digits_val_exact(d, z);
        lemma_digits_val_bounds(d, z);
        let p = pow(10, (d.len() - z - 1) as nat);
        assert(pow(10, (s.len() - z - 1) as nat) == 10 * p);
        let v = digits_val(d);
        let dd = digit_val(s.last());
        assert(digits_val(s) == v * 10 + dd);
        assert(0 <= dd <= 9);
        if v * 10 + dd == 10 * p {
            // The last digit must vanish and the prefix must hit the power.
            assert(dd == 10 * p - 10 * v);
            assert(dd % 10 == 0) by (nonlinear_arith)
                requires
                    dd == 10 * p - 10 * v,
            ;
            assert(dd == 0);
            assert(v == p) by (nonlinear_arith)
                requires
                    v * 10 == 10 * p,
            ;
            lemma_digit_char(s.last());
            assert(s.last() == '0');
            assert forall|k: int| z < k < s.len() implies #[trigger] s[k] == '0' by {
                if k < s.len() - 1 {
                    assert(d[k] == '0');
                }
            }
        }
        if s[z] == '1' && (forall|k: int| z < k < s.len() ==> #[trigger] s[k] == '0') {
            assert(forall|k: int| z < k < d.len() ==> #[trigger] d[k] == '0');
            assert(v == p);
            assert(s.last() == '0');
            assert(digit_val(s.last()) == 0);
            assert(digits_val(s) == 10 * p) by (nonlinear_arith)
                requires
                    digits_val(s) == v * 10,
                    v == p,
            ;
        }
    }
}

proof fn lemma_find_exp_at(b: Seq<char>, i: int)
    requires
        0 <= i < b.len(),
        char_ci(b[i], 'e'),
        forall|t: int| 0 <= t < i ==> !char_ci(#[trigger] b[t], 'e'),
    ensures
        find_exp(b) == i,
    decreases i,
{
    if i > 0 {
        lemma_find_exp_at(b.drop_first(), i - 1);
    }
}

proof fn lemma_find_exp_none(b: Seq<char>)
    requires
        forall|t: int| 0 <= t < b.len() ==> !char_ci(#[trigger] b[t], 'e'),
    ensures
        find_exp(b) == -1,
    decreases b.len(),
{
    if b.len() > 0 {
        lemma_find_exp_none(b.drop_first());
    }
}

proof fn lemma_find_dot_at(m: Seq<char>, i: int)
    requires
        0 <= i < m.len(),
        m[i] == '.',
        forall|t: int| 0 <= t < i ==> #[trigger] m[t] != '.',
    ensures
        find_dot(m) == i,
    decreases i,
{
    if i > 0 {
        lemma_find_dot_at(m.drop_first(), i - 1);
    }
}

proof fn lemma_find_dot_none(m: Seq<char>)
    requires
        forall|t: int| 0 <= t < m.len() ==> #[trigger] m[t] != '.',
    ensures
        find_dot(m) == -1,
    decreases m.len(),
{
    if m.len() > 0 {
        lemma_find_dot_none(m.drop_first());
    }
}

/// Case-insensitive comparison against a lower-case letter.
fn eqi(c: char, l: char) -> (r: bool)
    ensures
        r == char_ci(c, l),
{
    c == l || (c as u32) + 0x20 == (l as u32)
}

/// Decides exactly whether a number literal denotes a value in `[0, 1]`.
///
/// The decision is made over the written digits themselves: with the most
/// significant nonzero digit at position `z` of the `L` mantissa digits,
/// the value compares against 1 through the scientific exponent
/// `(L - 1 - z) - (F - E)`: negative means below 1, positive above, and
/// at zero the value is 1 exactly when the digits are a one followed by
/// zeros.
#[verifier::rlimit(100)]
pub fn in_unit_interval(s: &str) -> (r: bool)
    requires
        is_number_literal(s@),
    ensures
        r == literal_in_unit_interval(s@),
{
    let n = s.unicode_len();

    // Optional sign.
    let mut sl: usize = 0;
    let mut neg: bool = false;
    if n > 0 {
        let c0 = s.get_char(0);
        if c0 == '+' || c0 == '-' {
            sl = 1;
            neg = c0 == '-';
        }
    }
    let ghost b = body_of(s@);
    proof {
        assert(b =~= s@.skip(sl as int));
        assert(neg == is_negative(s@));
    }
    let blen = n - sl;

    // The non-finite keywords lie outside the interval.
    if blen == 3 {
        let c0 = s.get_char(sl);
        let c1 = s.get_char(sl + 1);
        let c2 = s.get_char(sl + 2);
        if eqi(c0, 'i') && eqi(c1, 'n') && eqi(c2, 'f') {
            proof {
                assert(is_inf(b));
            }
            return false;
        }
        if eqi(c0, 'n') && eqi(c1, 'a') && eqi(c2, 'n') {
            proof {
                assert(is_nan(b));
            }
            return false;
        }
    }
    if blen == 8 {
        let k0 = eqi(s.get_char(sl), 'i');
        let k1 = eqi(s.get_char(sl + 1), 'n');
        let k2 = eqi(s.get_char(sl + 2), 'f');
        let k3 = eqi(s.get_char(sl + 3), 'i');
        let k4 = eqi(s.get_char(sl + 4), 'n');
        let k5 = eqi(s.get_char(sl + 5), 'i');
        let k6 = eqi(s.get_char(sl + 6), 't');
        let k7 = eqi(s.get_char(sl + 7), 'y');
        if k0 && k1 && k2 && k3 && k4 && k5 && k6 && k7 {
            proof {
                assert(is_infinity(b));
            }
            return false;
        }
    }
    proof {
        assert(!is_special(s@));
    }

    // Locate the exponent marker: the first case-insensitive `e`.
    let mut epos: usize = 0;
    let mut has_e: bool = false;
    let mut i: usize = 0;
    while i < blen
        invariant
            n == s@.len(),
            sl <= n,
            blen == n - sl,
            b == body_of(s@),
            b =~= s@.skip(sl as int),
            0 <= i <= blen,
            has_e ==> epos < i && char_ci(b[epos as int], 'e') && forall|t: int|
                0 <= t < epos ==> !char_ci(#[trigger] b[t], 'e'),
            !has_e ==> forall|t: int| 0 <= t < i ==> !char_ci(#[trigger] b[t], 'e'),
        decreases blen - i,
    {
        if !has_e {
            if eqi(s.get_char(sl + i), 'e') {
                epos = i;
                has_e = true;
            }
        }
        i = i + 1;
    }
    proof {
        if has_e {
            lemma_find_exp_at(b, epos as int);
        } else {
            lemma_find_exp_none(b);
        }
    }
    let mlen = if has_e {
        epos
    } else {
        blen
    };
    let ghost m = mantissa_of(b);
    proof {
        assert(m =~= b.take(mlen as int));
    }

    // Locate the decimal point within the mantissa.
    let mut dpos: usize = 0;
    let mut has_dot: bool = false;
    let mut i2: usize = 0;
    while i2 < mlen
        invariant
            n == s@.len(),
            sl <= n,
            mlen <= n - sl,
            b == body_of(s@),
            b =~= s@.skip(sl as int),
            m == mantissa_of(b),
            m =~= b.take(mlen as int),
            mlen == m.len(),
            0 <= i2 <= mlen,
            has_dot ==> dpos < i2 && m[dpos as int] == '.' && forall|t: int|
                0 <= t < dpos ==> #[trigger] m[t] != '.',
            !has_dot ==> forall|t: int| 0 <= t < i2 ==> #[trigger] m[t] != '.',
        decreases mlen - i2,
    {
        if !has_dot {
            let c = s.get_char(sl + i2);
            if c == '.' {
                dpos = i2;
                has_dot = true;
            }
        }
        i2 = i2 + 1;
    }
    proof {
        if has_dot {
            lemma_find_dot_at(m, dpos as int);
        } else {
            lemma_find_dot_none(m);
        }
    }
    let ilen = if has_dot {
        dpos
    } else {
        mlen
    };
    let flen = if has_dot {
        mlen - dpos - 1
    } else {
        0
    };
    let ghost dseq = mantissa_digits(s@);
    proof {
        assert(int_digits(m).len() == ilen);
        assert(frac_digits(m).len() == flen);
        assert(dseq.len() == ilen + flen);
        assert(all_digits(int_digits(m)) && all_digits(frac_digits(m)));
        assert(all_digits(dseq));
    }
    let dlen = ilen + flen;

    // Materialize the mantissa digits, the decimal point removed.
    let mut dv: Vec<char> = Vec::new();
    let mut k: usize = 0;
    while k < dlen
        invariant
            n == s@.len(),
            sl <= n,
            mlen <= n - sl,
            has_dot ==> dpos < mlen && ilen == dpos && flen == mlen - dpos - 1,
            !has_dot ==> ilen == mlen && flen == 0,
            dlen == ilen + flen,
            b == body_of(s@),
            b =~= s@.skip(sl as int),
            m == mantissa_of(b),
            m =~= b.take(mlen as int),
            mlen == m.len(),
            has_dot ==> find_dot(m) == dpos,
            !has_dot ==> find_dot(m) == -1,
            dseq == mantissa_digits(s@),
            dseq.len() == dlen,
            ilen == int_digits(m).len(),
            0 <= k <= dlen,
            dv@ =~= dseq.take(k as int),
        decreases dlen - k,
    {
        let c = if k < ilen {
            s.get_char(sl + k)
        } else {
            s.get_char(sl + dpos + 1 + (k - ilen))
        };
        proof {
            if k < ilen {
                assert(dseq[k as int] == int_digits(m)[k as int]);
                assert(int_digits(m)[k as int] == m[k as int]);
            } else {
                assert(dseq[k as int] == frac_digits(m)[k - ilen]);
                assert(frac_digits(m)[k - ilen] == m[dpos + 1 + (k - ilen)]);
            }
            assert(dseq[k as int] == c);
            assert(dseq.take(k + 1) =~= dseq.take(k as int).push(dseq[k as int]));
        }
        dv.push(c);
        k = k + 1;
    }
    proof {
        assert(dv@ =~= dseq);
    }

    // Find the most significant nonzero digit.
    let mut z: usize = 0;
    let mut zfound: bool = false;
    let mut k2: usize = 0;
    while k2 < dlen
        invariant
            dlen == dv@.len(),
            dv@ == mantissa_digits(s@),
            0 <= k2 <= dlen,
            zfound ==> z < k2 && dv@[z as int] != '0' && forall|t: int|
                0 <= t < z ==> #[trigger] dv@[t] == '0',
            !zfound ==> forall|t: int| 0 <= t < k2 ==> #[trigger] dv@[t] == '0',
        decreases dlen - k2,
    {
        if !zfound {
            let c = dv[k2];
            proof {
                lemma_digit_char(c);
            }
            if c as u32 != 0x30 {
                z = k2;
                zfound = true;
            }
        }
        k2 = k2 + 1;
    }
    if !zfound {
        proof {
            assert(all_zeros(dseq));
            lemma_zeros_val(dseq);
        }
        return true;
    }
    proof {
        lemma_digits_val_bounds(dseq, z as int);
        vstd::arithmetic::power::lemma_pow_positive(10, (dseq.len() - z - 1) as nat);
        assert(digits_val(dseq) > 0);
    }
    if neg {
        return false;
    }

    // Read the exponent, saturating far outside the decidable range.
    let mut eacc: i128 = 0;
    let mut eneg: bool = false;
    let mut huge: bool = false;
    let ghost estr = exp_of(b);
    let ghost eds = body_of(estr);
    if has_e {
        proof {
            assert(estr =~= b.skip(epos + 1));
            assert(all_digits(eds) && eds.len() > 0);
        }
        let mut esl: usize = 0;
        let ec = s.get_char(sl + epos + 1);
        if ec == '+' || ec == '-' {
            esl = 1;
            eneg = ec == '-';
        }
        proof {
            assert(eds =~= estr.skip(esl as int));
            assert(eneg == is_negative(estr));
        }
        let edlen = n - (sl + epos + 1) - esl;
        let mut j: usize = 0;
        while j < edlen
            invariant
                n == s@.len(),
                sl + epos + 1 + esl <= n,
                edlen == n - (sl + epos + 1) - esl,
                b == body_of(s@),
                b =~= s@.skip(sl as int),
                estr == exp_of(b),
                estr =~= b.skip(epos + 1),
                eds == body_of(estr),
                eds =~= estr.skip(esl as int),
                edlen == eds.len(),
                all_digits(eds),
                0 <= j <= edlen,
                !huge ==> 0 <= eacc <= 1_000_000_000_000_000_000_000_000_000_000i128 && eacc
                    == digits_val(eds.take(j as int)),
                huge ==> digits_val(eds.take(j as int))
                    > 1_000_000_000_000_000_000_000_000_000_000i128,
            decreases edlen - j,
        {
            let c = s.get_char(sl + epos + 1 + esl + j);
            proof {
                assert(eds[j as int] == c);
                assert(is_digit(c));
                assert(eds.take(j + 1).drop_last() =~= eds.take(j as int));
                assert(all_digits(eds.take(j as int)));
                lemma_digits_val_nonneg(eds.take(j as int));
                assert(digits_val(eds.take(j + 1)) == digits_val(eds.take(j as int)) * 10
                    + digit_val(eds[j as int]));
            }
            let d = (c as u32 - 0x30) as i128;
            if !huge {
                let next = eacc * 10 + d;
                if next > 1_000_000_000_000_000_000_000_000_000_000i128 {
                    huge = true;
                } else {
                    eacc = next;
                }
            } else {
                proof {
                    let v = digits_val(eds.take(j as int));
                    assert(v * 10 >= v) by (nonlinear_arith)
                        requires
                            v >= 0,
                    ;
                }
            }
            j = j + 1;
        }
        proof {
            assert(eds.take(edlen as int) =~= eds);
        }
    } else {
        proof {
            assert(estr =~= Seq::<char>::empty());
            assert(eds =~= Seq::<char>::empty());
        }
    }
    proof {
        if eneg {
            assert(exp_val(s@) == -digits_val(eds));
        } else {
            assert(exp_val(s@) == digits_val(eds));
        }
    }

    // Decide by comparing the magnitude against the interval bound.
    let c1: i128 = (dlen - 1 - z) as i128;
    let ghost f = flen as int;
    let ghost e = exp_val(s@);
    let ghost mv = digits_val(dseq);
    if huge {
        if eneg {
            proof {
                assert(f - e > dseq.len() - z);
                vstd::arithmetic::power::lemma_pow_strictly_increases(
                    10,
                    (dseq.len() - z) as nat,
                    (f - e) as nat,
                );
            }
            return true;
        }
        proof {
            assert(f - e < 0);
        }
        return false;
    }
    let ev: i128 = if eneg {
        -eacc
    } else {
        eacc
    };
    let c2: i128 = flen as i128 - ev;
    proof {
        assert(c2 == f - e);
    }
    if c1 > c2 {
        proof {
            if f - e >= 0 {
                vstd::arithmetic::power::lemma_pow_strictly_increases(
                    10,
                    (f - e) as nat,
                    (dseq.len() - z - 1) as nat,
                );
            }
        }
        false
    } else if c1 < c2 {
        proof {
            if dseq.len() - z < f - e {
                vstd::arithmetic::power::lemma_pow_strictly_increases(
                    10,
                    (dseq.len() - z) as nat,
                    (f - e) as nat,
                );
            }
        }
        true
    } else {
        proof {
            lemma_digits_val_exact(dseq, z as int);
        }
        let lead = dv[z];
        proof {
            lemma_digit_char(lead);
        }
        if lead as u32 != 0x31 {
            return false;
        }
        let mut tail_zero: bool = true;
        let mut k3: usize = z + 1;
        while k3 < dlen
            invariant
                dlen == dv@.len(),
                dv@ == mantissa_digits(s@),
                z < dlen,
                z + 1 <= k3 <= dlen,
                tail_zero <==> (forall|t: int| z < t < k3 ==> #[trigger] dv@[t] == '0'),
            decreases dlen - k3,
        {
            let c = dv[k3];
            proof {
                lemma_digit_char(c);
            }
            if c as u32 != 0x30 {
                tail_zero = false;
            }
            k3 = k3 + 1;
        }
        proof {
            assert(dseq[z as int] == '1');
        }
        tail_zero
    }
}

} // verus!
