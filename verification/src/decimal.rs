//! Exact codec between the decimal strings exchanges quote and the
//! crate's fixed-point representation (units of 10^-8 in a `u64`).
//!
//! The accepted form is one or more whole digits, optionally followed
//! by `.` and fractional digits.  Fractional digits beyond the eighth
//! must be zero, and the whole part must fit in ten digits, so every
//! accepted value is below `MAX_SCALED` and is represented exactly.
use vstd::prelude::*;

use crate::orderbook::MAX_SCALED;
use crate::orderbook::PRICE_SCALE;

verus! {

/// A depth message or one of its fields was not in the accepted form.
#[derive(Clone, Copy, Debug, PartialEq, Eq, Structural)]
pub struct ParseError;

/// Largest whole part the codec accepts: ten nines.
pub const MAX_WHOLE: u64 = 9_999_999_999;

pub open spec fn is_digit(c: u8) -> bool {
    48 <= c <= 57
}

pub open spec fn all_digits(s: Seq<u8>) -> bool {
    forall|i: int| 0 <= i < s.len() ==> is_digit(#[trigger] s[i])
}

/// The number a digit string denotes in base ten.
pub open spec fn digits_val(s: Seq<u8>) -> int
    decreases s.len(),
{
    if s.len() == 0 {
        0
    } else {
        digits_val(s.drop_last()) * 10 + (s.last() - 48)
    }
}

pub open spec fn pow10(n: nat) -> int
    decreases n,
{
    if n == 0 {
        1
    } else {
        10 * pow10((n - 1) as nat)
    }
}

/// Index of the first `.` at or after `i`, or the length if there is
/// none.
pub open spec fn first_dot(s: Seq<u8>, i: int) -> int
    decreases s.len() - i,
{
    if i < 0 || i >= s.len() {
        s.len() as int
    } else if s[i] == 46 {
        i
    } else {
        first_dot(s, i + 1)
    }
}

/// Fractional digits beyond the eighth carry no representable value,
/// so they must all be `0`.
pub open spec fn frac_tail_zero(s: Seq<u8>) -> bool {
    forall|i: int| 8 <= i < s.len() ==> #[trigger] s[i] == 48
}

/// Fixed-point value of a fractional digit string, in units of 10^-8.
pub open spec fn frac_val_e8(s: Seq<u8>) -> int {
    let used = if s.len() < 8 {
        s.len() as int
    } else {
        8
    };
    digits_val(s.take(used)) * pow10((8 - used) as nat)
}

/// What `parse_decimal` returns: the exact fixed-point reading of the
/// string, or nothing where the form or range is violated.
pub open spec fn spec_parse_decimal(s: Seq<u8>) -> Option<u64> {
    let k = first_dot(s, 0);
    let whole = s.take(k);
    let frac = if k < s.len() {
        s.skip(k + 1)
    } else {
        Seq::<u8>::empty()
    };
    if whole.len() == 0 || !all_digits(whole) || digits_val(whole) > MAX_WHOLE {
        None
    } else if !all_digits(frac) || !frac_tail_zero(frac) {
        None
    } else {
        Some((digits_val(whole) * PRICE_SCALE + frac_val_e8(frac)) as u64)
    }
}

/// Digit strings denote non-negative numbers.
proof fn lemma_digits_val_nonneg(s: Seq<u8>)
    requires
        all_digits(s),
    ensures
        digits_val(s) >= 0,
    decreases s.len(),
{
    if s.len() > 0 {
        assert(all_digits(s.drop_last()));
        lemma_digits_val_nonneg(s.drop_last());
    }
}

/// Reading more digits can only increase the denoted number.
proof fn lemma_digits_val_prefix_le(s: Seq<u8>, i: int)
    requires
        all_digits(s),
        0 <= i <= s.len(),
    ensures
        digits_val(s.take(i)) <= digits_val(s),
    decreases s.len() - i,
{
    if i < s.len() {
        let t = s.take(i + 1);
        assert(t.drop_last() =~= s.take(i));
        assert(all_digits(t));
        lemma_digits_val_nonneg(s.take(i));
        assert(digits_val(t) == digits_val(s.take(i)) * 10 + (s[i] - 48));
        lemma_digits_val_prefix_le(s, i + 1);
        assert(s.take(s.len() as int) =~= s);
    } else {
        assert(s.take(i) =~= s);
    }
}

proof fn lemma_pow10_pos(n: nat)
    ensures
        pow10(n) >= 1,
    decreases n,
{
    if n > 0 {
        lemma_pow10_pos((n - 1) as nat);
    }
}

/// Reads the decimal string held in `s[start..end]` into fixed point.
/// Returns exactly what `spec_parse_decimal` denotes, and every
/// accepted value is below `MAX_SCALED`.
#[verifier::loop_isolation(false)]
pub fn parse_decimal_range(s: &Vec<u8>, start: usize, end: usize) -> (r: Result<u64, ParseError>)
    requires
        start <= end <= s@.len(),
    ensures
        spec_parse_decimal(s@.subrange(start as int, end as int)) matches Some(v) ==> r == Ok::<
            u64,
            ParseError,
        >(v),
        spec_parse_decimal(s@.subrange(start as int, end as int)) is None ==> r == Err::<
            u64,
            ParseError,
        >(ParseError),
        r matches Ok(v) ==> v < MAX_SCALED,
{
    let ghost sub = s@.subrange(start as int, end as int);
    let mut i: usize = start;
    let mut whole: u64 = 0;
    while i < end && s[i] != 46
        invariant
            start <= i <= end,
            all_digits(sub.take(i - start)),
            forall|j: int| 0 <= j < i - start ==> sub[j] != 46,
            whole == digits_val(sub.take(i - start)),
            whole <= MAX_WHOLE,
        decreases end - i,
    {
        let c = s[i];
        if c < 48 || c > 57 {
            proof {
                lemma_whole_malformed(sub, i - start);
            }
            return Err(ParseError);
        }
        let d = (c - 48) as u64;
        proof {
            assert(sub.take(i - start + 1).drop_last() =~= sub.take(i - start));
        }
        let next = whole * 10 + d;
        if next > MAX_WHOLE {
            proof {
                lemma_whole_overflow(sub, i - start + 1);
            }
            return Err(ParseError);
        }
        whole = next;
        i = i + 1;
    }
    let ghost k = i - start;
    proof {
        lemma_first_dot_from(sub, 0, k);
    }
    if i == start {
        // The whole part may not be empty.
        return Err(ParseError);
    }
    if i == end {
        proof {
            assert(sub.take(k) =~= sub);
            let e = Seq::<u8>::empty();
            assert(e.take(0) =~= e);
            assert(digits_val(e) == 0);
            vstd::arithmetic::mul::lemma_mul_basics(pow10(8));
            assert(frac_val_e8(e) == 0);
        }
        return Ok(whole * PRICE_SCALE);
    }
    // The byte at `i` is a dot: read up to eight fractional digits.
    let dot: usize = i;
    i = i + 1;
    let ghost frac = sub.skip(k + 1);
    let mut f: u64 = 0;
    let mut cnt: usize = 0;
    while i < end && cnt < 8
        invariant
            dot + 1 <= i <= end,
            cnt == i - (dot + 1),
            cnt <= 8,
            all_digits(frac.take(cnt as int)),
            f == digits_val(frac.take(cnt as int)),
            f <= pow10(cnt as nat) - 1,
        decreases end - i,
    {
        let c = s[i];
        if c < 48 || c > 57 {
            proof {
                assert(frac[cnt as int] == c);
                assert(!all_digits(frac));
            }
            return Err(ParseError);
        }
        let d = (c - 48) as u64;
        proof {
            assert(frac.take(cnt + 1).drop_last() =~= frac.take(cnt as int));
            assert(pow10((cnt + 1) as nat) == 10 * pow10(cnt as nat));
            lemma_pow10_pos(cnt as nat);
            lemma_pow10_mono(cnt as nat, 7);
            lemma_pow10_8();
        }
        f = f * 10 + d;
        cnt = cnt + 1;
        i = i + 1;
    }
    let ghost used = cnt as int;
    // Everything after the eighth fractional digit must be a zero.
    let mut j: usize = i;
    while j < end
        invariant
            i <= j <= end,
            forall|m: int| i - (dot + 1) <= m < j - (dot + 1) ==> frac[m] == 48,
        decreases end - j,
    {
        if s[j] != 48 {
            proof {
                assert(frac[j - (dot + 1)] == s@[j as int]);
                if j - (dot + 1) >= 8 {
                    assert(!frac_tail_zero(frac));
                } else {
                    // Fewer than eight digits were read, so the scan
                    // stopped at the end: this spot cannot exist.
                    assert(false);
                }
            }
            return Err(ParseError);
        }
        j = j + 1;
    }
    // Scale a short fractional part up to eight digits.
    proof {
        assert(f == digits_val(frac.take(used)) * pow10((cnt - used) as nat)) by {
            vstd::arithmetic::mul::lemma_mul_basics(digits_val(frac.take(used)));
        }
    }
    while cnt < 8
        invariant
            0 <= used <= cnt <= 8,
            f == digits_val(frac.take(used)) * pow10((cnt - used) as nat),
            f <= pow10(cnt as nat) - 1,
        decreases 8 - cnt,
    {
        proof {
            assert(pow10((cnt + 1) as nat) == 10 * pow10(cnt as nat));
            assert(pow10((cnt + 1 - used) as nat) == 10 * pow10((cnt - used) as nat));
            lemma_pow10_pos(cnt as nat);
            lemma_pow10_pos((cnt - used) as nat);
            lemma_pow10_mono(cnt as nat, 7);
            lemma_pow10_8();
            lemma_digits_val_nonneg(frac.take(used));
            assert(digits_val(frac.take(used)) * pow10((cnt + 1 - used) as nat) == (digits_val(
                frac.take(used),
            ) * pow10((cnt - used) as nat)) * 10) by (nonlinear_arith)
                requires
                    pow10((cnt + 1 - used) as nat) == 10 * pow10((cnt - used) as nat),
            ;
        }
        f = f * 10;
        cnt = cnt + 1;
    }
    proof {
        lemma_pow10_8();
        if used < 8 {
            assert(frac.take(used) =~= frac);
        } else {
            assert(forall|m: int| 8 <= m < frac.len() ==> #[trigger] frac[m] == 48);
            assert forall|m: int| 0 <= m < frac.len() implies is_digit(#[trigger] frac[m]) by {
                if m < 8 {
                    assert(frac.take(8)[m] == frac[m]);
                    assert(is_digit(frac.take(8)[m]));
                } else {
                    assert(frac[m] == 48);
                }
            }
            assert(all_digits(frac));
            assert(f == digits_val(frac.take(used)) * pow10(0));
            vstd::arithmetic::mul::lemma_mul_basics(digits_val(frac.take(used)));
        }
        assert(f == frac_val_e8(frac));
        assert(f < PRICE_SCALE);
    }
    Ok(whole * PRICE_SCALE + f)
}

/// A non-digit before the first dot makes the whole part malformed.
proof fn lemma_whole_malformed(sub: Seq<u8>, p: int)
    requires
        0 <= p < sub.len(),
        forall|j: int| 0 <= j < p ==> sub[j] != 46,
        !is_digit(sub[p]),
        sub[p] != 46,
    ensures
        spec_parse_decimal(sub) is None,
{
    let k = first_dot(sub, 0);
    lemma_first_dot_le(sub, 0);
    lemma_first_dot_at_least(sub, 0, p + 1);
    assert(!is_digit(sub.take(k)[p]));
}

/// `first_dot` stays within the string.
proof fn lemma_first_dot_le(s: Seq<u8>, i: int)
    requires
        0 <= i <= s.len(),
    ensures
        i <= first_dot(s, i) <= s.len(),
    decreases s.len() - i,
{
    if i < s.len() && s[i] != 46 {
        lemma_first_dot_le(s, i + 1);
    }
}

/// `first_dot` cannot stop inside a dot-free prefix.
proof fn lemma_first_dot_at_least(s: Seq<u8>, i: int, p: int)
    requires
        0 <= i <= p <= s.len(),
        forall|j: int| i <= j < p ==> s[j] != 46,
    ensures
        first_dot(s, i) >= p,
    decreases p - i,
{
    lemma_first_dot_le(s, i);
    if i < p {
        lemma_first_dot_at_least(s, i + 1, p);
    }
}

/// Once a digit prefix already exceeds `MAX_WHOLE`, the full whole part
/// does too (or is malformed), so the string is rejected.
proof fn lemma_whole_overflow(sub: Seq<u8>, p: int)
    requires
        0 <= p <= sub.len(),
        all_digits(sub.take(p)),
        forall|j: int| 0 <= j < p ==> sub[j] != 46,
        digits_val(sub.take(p)) > MAX_WHOLE,
    ensures
        spec_parse_decimal(sub) is None,
{
    let k = first_dot(sub, 0);
    lemma_first_dot_le(sub, 0);
    lemma_first_dot_at_least(sub, 0, p);
    let whole = sub.take(k);
    if all_digits(whole) {
        assert(whole.take(p) =~= sub.take(p));
        lemma_digits_val_prefix_le(whole, p);
    }
}

proof fn lemma_pow10_8()
    ensures
        pow10(8) == PRICE_SCALE,
        pow10(7) == 10_000_000,
{
    reveal_with_fuel(pow10, 9);
}

proof fn lemma_pow10_mono(a: nat, b: nat)
    requires
        a <= b,
    ensures
        pow10(a) <= pow10(b),
    decreases b,
{
    if a < b {
        lemma_pow10_mono(a, (b - 1) as nat);
        lemma_pow10_pos((b - 1) as nat);
    }
}

/// `first_dot` lands exactly where a scan that saw no earlier dot says
/// it must.
proof fn lemma_first_dot_from(s: Seq<u8>, i: int, k: int)
    requires
        0 <= i <= k <= s.len(),
        forall|j: int| i <= j < k ==> s[j] != 46,
        k < s.len() ==> s[k] == 46,
    ensures
        first_dot(s, i) == k,
    decreases k - i,
{
    if i < k {
        lemma_first_dot_from(s, i + 1, k);
    }
}

/// Decimal digits of a whole number, most significant first.
pub open spec fn spec_format_u64(n: int) -> Seq<u8>
    recommends
        n >= 0,
    decreases n,
{
    if n < 10 {
        seq![(48 + n) as u8]
    } else {
        spec_format_u64(n / 10).push((48 + n % 10) as u8)
    }
}

/// Exactly `w` decimal digits of `n`, most significant first.
pub open spec fn spec_format_fixed(n: int, w: nat) -> Seq<u8>
    recommends
        0 <= n < pow10(w),
    decreases w,
{
    if w == 0 {
        Seq::<u8>::empty()
    } else {
        spec_format_fixed(n / 10, (w - 1) as nat).push((48 + n % 10) as u8)
    }
}

/// Canonical string for a fixed-point value: the whole digits, a dot,
/// and all eight fractional digits.
pub open spec fn spec_format_decimal(v: int) -> Seq<u8> {
    spec_format_u64(v / (PRICE_SCALE as int)) + seq![46u8] + spec_format_fixed(
        v % (PRICE_SCALE as int),
        8,
    )
}

fn format_u64_into(n: u64, out: &mut Vec<u8>)
    ensures
        final(out)@ == old(out)@ + spec_format_u64(n as int),
    decreases n,
{
    if n < 10 {
        out.push((48 + n) as u8);
        proof {
            assert(out@ =~= old(out)@ + spec_format_u64(n as int));
        }
    } else {
        format_u64_into(n / 10, out);
        out.push((48 + n % 10) as u8);
        proof {
            assert(out@ =~= old(out)@ + spec_format_u64(n as int));
        }
    }
}

fn format_fixed_into(n: u64, w: usize, out: &mut Vec<u8>)
    ensures
        final(out)@ == old(out)@ + spec_format_fixed(n as int, w as nat),
    decreases w,
{
    if w == 0 {
        proof {
            assert(out@ =~= old(out)@ + spec_format_fixed(n as int, 0));
        }
    } else {
        format_fixed_into(n / 10, w - 1, out);
        out.push((48 + n % 10) as u8);
        proof {
            assert(out@ =~= old(out)@ + spec_format_fixed(n as int, w as nat));
        }
    }
}

/// Writes a fixed-point value back in the canonical decimal form that
/// the exchanges' own strings use.
pub fn format_decimal(v: u64) -> (r: Vec<u8>)
    ensures
        r@ == spec_format_decimal(v as int),
{
    let mut out: Vec<u8> = Vec::new();
    format_u64_into(v / PRICE_SCALE, &mut out);
    out.push(46);
    format_fixed_into(v % PRICE_SCALE, 8, &mut out);
    proof {
        assert(out@ =~= spec_format_decimal(v as int));
    }
    out
}

/// Reads a whole decimal string into fixed point; the form and range
/// rules are those of `spec_parse_decimal`.
pub fn parse_decimal(s: &Vec<u8>) -> (r: Result<u64, ParseError>)
    ensures
        spec_parse_decimal(s@) matches Some(v) ==> r == Ok::<u64, ParseError>(v),
        spec_parse_decimal(s@) is None ==> r == Err::<u64, ParseError>(ParseError),
        r matches Ok(v) ==> v < MAX_SCALED,
{
    proof {
        assert(s@.subrange(0, s@.len() as int) =~= s@);
    }
    parse_decimal_range(s, 0, s.len())
}

/// The digits written for a whole number denote that number again.
proof fn lemma_format_u64_props(n: int)
    requires
        n >= 0,
    ensures
        all_digits(spec_format_u64(n)),
        spec_format_u64(n).len() >= 1,
        digits_val(spec_format_u64(n)) == n,
        forall|i: int| 0 <= i < spec_format_u64(n).len() ==> #[trigger] spec_format_u64(n)[i] != 46,
    decreases n,
{
    let s = spec_format_u64(n);
    if n < 10 {
        assert(s =~= seq![(48 + n) as u8]);
        assert(s.len() == 1);
        assert(s.last() == (48 + n) as u8);
        assert(s.drop_last() =~= Seq::<u8>::empty());
        assert(digits_val(s.drop_last()) == 0);
        assert(s.last() as int == 48 + n);
        assert(digits_val(s) == digits_val(s.drop_last()) * 10 + (s.last() - 48));
        assert(digits_val(s) == n);
    } else {
        lemma_format_u64_props(n / 10);
        vstd::arithmetic::div_mod::lemma_fundamental_div_mod(n, 10);
        vstd::arithmetic::div_mod::lemma_mod_bound(n, 10);
        assert(s.drop_last() =~= spec_format_u64(n / 10));
        assert(digits_val(s) == (n / 10) * 10 + n % 10);
    }
    assert forall|i: int| 0 <= i < s.len() implies #[trigger] s[i] != 46 by {
        assert(is_digit(s[i]));
    }
}

/// A width-`w` field holds any number below `pow10(w)` faithfully.
proof fn lemma_format_fixed_props(n: int, w: nat)
    requires
        0 <= n < pow10(w),
    ensures
        all_digits(spec_format_fixed(n, w)),
        spec_format_fixed(n, w).len() == w,
        digits_val(spec_format_fixed(n, w)) == n,
    decreases w,
{
    let s = spec_format_fixed(n, w);
    if w == 0 {
    } else {
        let p = pow10((w - 1) as nat);
        lemma_pow10_pos((w - 1) as nat);
        vstd::arithmetic::div_mod::lemma_fundamental_div_mod_converse(
            10 * p - 1,
            10,
            p - 1,
            9,
        );
        vstd::arithmetic::div_mod::lemma_div_is_ordered(n, 10 * p - 1, 10);
        vstd::arithmetic::div_mod::lemma_div_is_ordered(0, n, 10);
        lemma_format_fixed_props(n / 10, (w - 1) as nat);
        vstd::arithmetic::div_mod::lemma_fundamental_div_mod(n, 10);
        vstd::arithmetic::div_mod::lemma_mod_bound(n, 10);
        assert(s.drop_last() =~= spec_format_fixed(n / 10, (w - 1) as nat));
        assert(digits_val(s) == (n / 10) * 10 + n % 10);
    }
}

/// Writing a fixed-point value out and reading it back is the
/// identity: the decimal codec loses nothing on the values it accepts.
pub proof fn lemma_decimal_round_trip(v: u64)
    requires
        v < MAX_SCALED,
    ensures
        spec_parse_decimal(spec_format_decimal(v as int)) == Some(v),
{
    let n = v as int;
    let sc = PRICE_SCALE as int;
    let w = n / sc;
    let fr = n % sc;
    vstd::arithmetic::div_mod::lemma_fundamental_div_mod(n, sc);
    vstd::arithmetic::div_mod::lemma_mod_bound(n, sc);
    vstd::arithmetic::div_mod::lemma_div_is_ordered(0, n, sc);
    vstd::arithmetic::div_mod::lemma_fundamental_div_mod_converse(
        MAX_SCALED - 1,
        sc,
        MAX_WHOLE as int,
        sc - 1,
    );
    vstd::arithmetic::div_mod::lemma_div_is_ordered(n, MAX_SCALED - 1, sc);
    let ws = spec_format_u64(w);
    let fs = spec_format_fixed(fr, 8);
    let s = spec_format_decimal(n);
    lemma_format_u64_props(w);
    lemma_pow10_8();
    lemma_format_fixed_props(fr, 8);
    let k = ws.len() as int;
    assert(s[k] == 46);
    assert forall|j: int| 0 <= j < k implies s[j] != 46 by {
        assert(s[j] == ws[j]);
    }
    lemma_first_dot_from(s, 0, k);
    assert(s.take(k) =~= ws);
    assert(s.skip(k + 1) =~= fs);
    assert(fs.take(8) =~= fs);
    vstd::arithmetic::mul::lemma_mul_basics(digits_val(fs));
    assert(frac_val_e8(fs) == fr);
    assert(digits_val(ws) * sc + frac_val_e8(fs) == n);
}

/// The canonical decimal form is made of digits and one dot alone —
/// in particular nothing a JSON string scan could trip on.
pub proof fn lemma_format_decimal_shape(v: u64)
    requires
        v < MAX_SCALED,
    ensures
        spec_format_decimal(v as int).len() >= 3,
        forall|k: int|
            0 <= k < spec_format_decimal(v as int).len() ==> is_digit(
                #[trigger] spec_format_decimal(v as int)[k],
            ) || spec_format_decimal(v as int)[k] == 46,
{
    let n = v as int;
    let sc = PRICE_SCALE as int;
    vstd::arithmetic::div_mod::lemma_mod_bound(n, sc);
    vstd::arithmetic::div_mod::lemma_div_is_ordered(0, n, sc);
    lemma_pow10_8();
    lemma_format_u64_props(n / sc);
    lemma_format_fixed_props(n % sc, 8);
    let ws = spec_format_u64(n / sc);
    let fs = spec_format_fixed(n % sc, 8);
    let s = spec_format_decimal(n);
    assert forall|k: int| 0 <= k < s.len() implies is_digit(#[trigger] s[k]) || s[k] == 46 by {
        if k < ws.len() {
            assert(s[k] == ws[k]);
            assert(is_digit(ws[k]));
        } else if k == ws.len() {
            assert(s[k] == 46);
        } else {
            assert(s[k] == fs[k - ws.len() - 1]);
            assert(is_digit(fs[k - ws.len() - 1]));
        }
    }
}

} // verus!
