use vstd::prelude::*;
use crate::types::Decimal;
use crate::utils::push_char;

verus! {

/// The character of a decimal digit.
pub open spec fn digit_char(d: nat) -> char {
    if d == 0 {
        '0'
    } else if d == 1 {
        '1'
    } else if d == 2 {
        '2'
    } else if d == 3 {
        '3'
    } else if d == 4 {
        '4'
    } else if d == 5 {
        '5'
    } else if d == 6 {
        '6'
    } else if d == 7 {
        '7'
    } else if d == 8 {
        '8'
    } else {
        '9'
    }
}

/// The decimal digits of `n`, without leading zeros.
pub open spec fn digits_of(n: nat) -> Seq<char>
    decreases n,
{
    if n < 10 {
        seq![digit_char(n)]
    } else {
        digits_of(n / 10).push(digit_char(n % 10))
    }
}

/// The last `w` decimal digits of `n`, zeros included.
pub open spec fn low_digits(n: nat, w: nat) -> Seq<char>
    decreases w,
{
    if w == 0 {
        Seq::empty()
    } else {
        low_digits(n / 10, (w - 1) as nat).push(digit_char(n % 10))
    }
}

/// `n / 10^w`.
pub open spec fn shift_down(n: nat, w: nat) -> nat
    decreases w,
{
    if w == 0 {
        n
    } else {
        shift_down(n / 10, (w - 1) as nat)
    }
}

/// `n` zeros.
pub open spec fn zeros(n: nat) -> Seq<char> {
    Seq::new(n, |i: int| '0')
}

/// The text of a number in the fewest digits: sign, whole part, and the digits
/// after the point with trailing zeros left out (no point when none remain).
pub open spec fn decimal_text(d: Decimal) -> Seq<char> {
    let (m, w) = strip_zeros(d.mantissa as nat, d.scale as nat);
    let e = d.exponent as nat;
    (if d.negative {
        seq!['-']
    } else {
        Seq::empty()
    }) + if e >= w {
        digits_of(m) + if m == 0 {
            Seq::empty()
        } else {
            zeros((e - w) as nat)
        }
    } else {
        let w2 = (w - e) as nat;
        digits_of(shift_down(m, w2)) + seq!['.'] + low_digits(m, w2)
    }
}

/// The value of a decimal or hexadecimal digit.
pub open spec fn digit_value(c: char) -> nat {
    if '0' <= c <= '9' {
        (c as u32 - '0' as u32) as nat
    } else if 'a' <= c <= 'f' {
        (c as u32 - 'a' as u32 + 10) as nat
    } else if 'A' <= c <= 'F' {
        (c as u32 - 'A' as u32 + 10) as nat
    } else {
        0
    }
}

/// The number that the digits `s` write in `base`.
pub open spec fn radix_value(s: Seq<char>, base: nat) -> nat
    decreases s.len(),
{
    if s.len() == 0 {
        0
    } else {
        radix_value(s.drop_last(), base) * base + digit_value(s.last())
    }
}

/// `(m, s)` with trailing zeros of the fraction removed.
pub open spec fn strip_zeros(m: nat, s: nat) -> (nat, nat)
    decreases s,
{
    if s > 0 && m % 10 == 0 {
        strip_zeros(m / 10, (s - 1) as nat)
    } else {
        (m, s)
    }
}

pub open spec fn zero() -> Decimal {
    Decimal { negative: false, mantissa: 0, scale: 0, exponent: 0 }
}

/// How many leading digits of `s` (from the `k`-th on) can be read before the
/// value no longer fits in 64 bits.
pub open spec fn fit_len(s: Seq<char>, k: nat) -> nat
    decreases s.len() - k,
{
    if k < s.len() && radix_value(s.subrange(0, k + 1 as int), 10) <= u64::MAX {
        fit_len(s, k + 1)
    } else {
        k
    }
}

/// The number that a decimal literal writes: its digits without the point, the
/// number of them after the point, and its sign. Digits past the longest
/// leading run whose value fits in 64 bits are cut off (the value is truncated
/// toward zero), those before the point standing for powers of ten.
pub open spec fn decimal_literal(negative: bool, digits: Seq<char>, fraction_len: nat) -> Decimal {
    let k = fit_len(digits, 0);
    let m = radix_value(digits.subrange(0, k as int), 10);
    let dropped = (digits.len() - k) as nat;
    if dropped <= fraction_len {
        if fraction_len - dropped <= u32::MAX {
            let (m2, s2) = strip_zeros(m, (fraction_len - dropped) as nat);
            Decimal { negative, mantissa: m2 as u64, scale: s2 as u32, exponent: 0 }
        } else {
            zero()
        }
    } else if dropped - fraction_len <= u32::MAX {
        Decimal { negative, mantissa: m as u64, scale: 0, exponent: (dropped - fraction_len) as u32 }
    } else {
        zero()
    }
}

/// The number that a hexadecimal literal writes (the digits after `0x`); one that
/// does not fit in 64 bits stands for zero.
pub open spec fn hex_literal(digits: Seq<char>) -> Decimal {
    let m = radix_value(digits, 16);
    if m <= u64::MAX {
        Decimal { negative: false, mantissa: m as u64, scale: 0, exponent: 0 }
    } else {
        zero()
    }
}

/// `10^w`.
pub open spec fn pow10(w: nat) -> nat
    decreases w,
{
    if w == 0 {
        1
    } else {
        10 * pow10((w - 1) as nat)
    }
}

proof fn lemma_pow10_positive(w: nat)
    ensures
        pow10(w) > 0,
    decreases w,
{
    if w > 0 {
        lemma_pow10_positive((w - 1) as nat);
    }
}

proof fn lemma_radix_concat(a: Seq<char>, b: Seq<char>)
    ensures
        radix_value(a + b, 10) == radix_value(a, 10) * pow10(b.len()) + radix_value(b, 10),
    decreases b.len(),
{
    if b.len() == 0 {
        assert(a + b =~= a);
        assert(pow10(0) == 1);
        assert(radix_value(a, 10) * 1 == radix_value(a, 10));
    } else {
        lemma_radix_concat(a, b.drop_last());
        assert((a + b).drop_last() =~= a + b.drop_last());
        assert((a + b).last() == b.last());
        let ra = radix_value(a, 10);
        let p = pow10((b.len() - 1) as nat);
        let rb = radix_value(b.drop_last(), 10);
        let dl = digit_value(b.last());
        assert(radix_value(b, 10) == rb * 10 + dl);
        assert(pow10(b.len()) == 10 * p);
        assert(radix_value(a + b, 10) == radix_value(a + b.drop_last(), 10) * 10 + dl);
        assert((ra * p + rb) * 10 + dl == ra * (10 * p) + (rb * 10 + dl)) by (nonlinear_arith);
    }
}

proof fn lemma_digit_round_trip(d: nat)
    requires
        d < 10,
    ensures
        digit_value(digit_char(d)) == d,
{
}

proof fn lemma_digits_of_value(n: nat)
    ensures
        radix_value(digits_of(n), 10) == n,
    decreases n,
{
    if n < 10 {
        lemma_digit_round_trip(n);
        assert(digits_of(n).drop_last() =~= Seq::<char>::empty());
        assert(digits_of(n).last() == digit_char(n));
        assert(radix_value(Seq::<char>::empty(), 10) == 0);
        assert(radix_value(digits_of(n), 10) == radix_value(digits_of(n).drop_last(), 10) * 10
            + digit_value(digit_char(n)));
    } else {
        lemma_digits_of_value(n / 10);
        lemma_digit_round_trip(n % 10);
        assert(digits_of(n).drop_last() =~= digits_of(n / 10));
        assert(digits_of(n).last() == digit_char(n % 10));
        assert(radix_value(digits_of(n), 10) == (n / 10) * 10 + n % 10);
        vstd::arithmetic::div_mod::lemma_fundamental_div_mod(n as int, 10);
    }
}

proof fn lemma_low_digits_value(n: nat, w: nat)
    ensures
        low_digits(n, w).len() == w,
        radix_value(low_digits(n, w), 10) == n % pow10(w),
    decreases w,
{
    if w > 0 {
        let p = pow10((w - 1) as nat);
        lemma_low_digits_value(n / 10, (w - 1) as nat);
        lemma_digit_round_trip(n % 10);
        lemma_pow10_positive((w - 1) as nat);
        assert(low_digits(n, w).drop_last() =~= low_digits(n / 10, (w - 1) as nat));
        vstd::arithmetic::div_mod::lemma_mod_breakdown(n as int, 10, p as int);
    }
}

proof fn lemma_shift_down_value(n: nat, w: nat)
    ensures
        shift_down(n, w) == n / pow10(w),
    decreases w,
{
    if w > 0 {
        let p = pow10((w - 1) as nat);
        lemma_shift_down_value(n / 10, (w - 1) as nat);
        lemma_pow10_positive((w - 1) as nat);
        vstd::arithmetic::div_mod::lemma_div_denominator(n as int, 10, p as int);
        assert(pow10(w) == 10 * p);
        assert(shift_down(n, w) == shift_down(n / 10, (w - 1) as nat));
        assert(((n as int) / 10) / (p as int) == (n as int) / (10 * p as int));
        assert(n / pow10(w) == (n as int) / (10 * p as int));
    } else {
        assert(pow10(w) == 1);
    }
}

/// The digits of a rendered number, read back with as many of them after the
/// point as its text has, give the number again, when the number has no
/// trailing zero after the point.
pub proof fn lemma_read_rendered(d: Decimal)
    requires
        d.scale == 0 || d.mantissa % 10 != 0,
        d.exponent == 0,
    ensures
        decimal_literal(
            d.negative,
            digits_of(shift_down(d.mantissa as nat, d.scale as nat)) + low_digits(
                d.mantissa as nat,
                d.scale as nat,
            ),
            d.scale as nat,
        ) == d,
{
    let m = d.mantissa as nat;
    let w = d.scale as nat;
    let whole = digits_of(shift_down(m, w));
    let frac = low_digits(m, w);
    lemma_shift_down_value(m, w);
    lemma_low_digits_value(m, w);
    lemma_digits_of_value(shift_down(m, w));
    lemma_radix_concat(whole, frac);
    lemma_pow10_positive(w);
    vstd::arithmetic::div_mod::lemma_fundamental_div_mod(m as int, pow10(w) as int);
    assert(radix_value(whole + frac, 10) == m) by (nonlinear_arith)
        requires
            radix_value(whole + frac, 10) == (m / pow10(w)) * pow10(w) + m % pow10(w),
            m == pow10(w) * (m / pow10(w)) + m % pow10(w),
    ;
    lemma_fit_all(whole + frac, 0);
    assert((whole + frac).subrange(0, (whole + frac).len() as int) =~= whole + frac);
}

proof fn lemma_fit_all(s: Seq<char>, k: nat)
    requires
        radix_value(s, 10) <= u64::MAX,
        k <= s.len(),
    ensures
        fit_len(s, k) == s.len(),
    decreases s.len() - k,
{
    if k < s.len() {
        lemma_prefix_value_le(s, k + 1 as int, 10);
        lemma_fit_all(s, k + 1);
    }
}

fn digit_char_exec(d: u64) -> (c: char)
    requires
        d < 10,
    ensures
        c == digit_char(d as nat),
{
    if d == 0 {
        '0'
    } else if d == 1 {
        '1'
    } else if d == 2 {
        '2'
    } else if d == 3 {
        '3'
    } else if d == 4 {
        '4'
    } else if d == 5 {
        '5'
    } else if d == 6 {
        '6'
    } else if d == 7 {
        '7'
    } else if d == 8 {
        '8'
    } else {
        '9'
    }
}

pub(crate) fn push_digits(out: &mut String, n: u64)
    ensures
        final(out)@ == old(out)@ + digits_of(n as nat),
    decreases n,
{
    if n < 10 {
        push_char(out, digit_char_exec(n));
        proof {
            assert(out@ =~= old(out)@ + digits_of(n as nat));
        }
    } else {
        push_digits(out, n / 10);
        push_char(out, digit_char_exec(n % 10));
        proof {
            assert(out@ =~= old(out)@ + digits_of(n as nat));
        }
    }
}

fn push_low_digits(out: &mut String, n: u64, w: u32)
    ensures
        final(out)@ == old(out)@ + low_digits(n as nat, w as nat),
    decreases w,
{
    if w == 0 {
        proof {
            assert(out@ =~= old(out)@ + low_digits(n as nat, w as nat));
        }
    } else {
        push_low_digits(out, n / 10, w - 1);
        push_char(out, digit_char_exec(n % 10));
        proof {
            assert(out@ =~= old(out)@ + low_digits(n as nat, w as nat));
        }
    }
}

fn shift_down_exec(n: u64, w: u32) -> (r: u64)
    ensures
        r as nat == shift_down(n as nat, w as nat),
{
    let mut m = n;
    let mut k: u32 = w;
    while k > 0
        invariant
            shift_down(m as nat, k as nat) == shift_down(n as nat, w as nat),
        decreases k,
    {
        m = m / 10;
        k = k - 1;
    }
    m
}

fn push_zeros(out: &mut String, n: u32)
    ensures
        final(out)@ == old(out)@ + zeros(n as nat),
{
    let mut i: u32 = 0;
    while i < n
        invariant
            i <= n,
            out@ == old(out)@ + zeros(i as nat),
        decreases n - i,
    {
        push_char(out, '0');
        i += 1;
        proof {
            assert(out@ =~= old(out)@ + zeros(i as nat));
        }
    }
}

/// Appends the text of `d` to `out`.
pub(crate) fn push_decimal(out: &mut String, d: Decimal)
    ensures
        final(out)@ == old(out)@ + decimal_text(d),
{
    let ghost start = out@;
    let mut m = d.mantissa;
    let mut w: u32 = d.scale;
    while w > 0 && m % 10 == 0
        invariant
            strip_zeros(m as nat, w as nat) == strip_zeros(d.mantissa as nat, d.scale as nat),
        decreases w,
    {
        m = m / 10;
        w = w - 1;
    }
    assert(strip_zeros(m as nat, w as nat) == (m as nat, w as nat));
    if d.negative {
        push_char(out, '-');
    }
    let ghost signed = out@;
    if d.exponent >= w {
        push_digits(out, m);
        if m != 0 {
            push_zeros(out, d.exponent - w);
        }
        proof {
            assert(out@ =~= start + decimal_text(d));
        }
    } else {
        let w2: u32 = w - d.exponent;
        push_digits(out, shift_down_exec(m, w2));
        push_char(out, '.');
        push_low_digits(out, m, w2);
        proof {
            assert(out@ =~= start + decimal_text(d));
        }
    }
}

proof fn lemma_prefix_value_le(s: Seq<char>, i: int, base: nat)
    requires
        0 <= i <= s.len(),
        base >= 1,
    ensures
        radix_value(s.subrange(0, i), base) <= radix_value(s, base),
    decreases s.len(),
{
    if i < s.len() {
        lemma_prefix_value_le(s.drop_last(), i, base);
        assert(s.drop_last().subrange(0, i) =~= s.subrange(0, i));
        let x = radix_value(s.drop_last(), base);
        assert(x * base + digit_value(s.last()) >= x) by (nonlinear_arith)
            requires
                base >= 1,
        ;
    } else {
        assert(s.subrange(0, i) =~= s);
    }
}

fn digit_value_exec(c: char) -> (r: u64)
    ensures
        r as nat == digit_value(c),
        r < 16,
{
    if '0' <= c && c <= '9' {
        (c as u32 - '0' as u32) as u64
    } else if 'a' <= c && c <= 'f' {
        (c as u32 - 'a' as u32 + 10) as u64
    } else if 'A' <= c && c <= 'F' {
        (c as u32 - 'A' as u32 + 10) as u64
    } else {
        0
    }
}

/// The number that `s` writes in `base`, when it fits in 64 bits.
pub(crate) fn read_radix(s: &Vec<char>, base: u64) -> (r: Option<u64>)
    requires
        base == 10 || base == 16,
    ensures
        r is Some <==> radix_value(s@, base as nat) <= u64::MAX,
        r is Some ==> r->0 as nat == radix_value(s@, base as nat),
{
    let mut acc: u64 = 0;
    let mut i: usize = 0;
    while i < s.len()
        invariant
            i <= s.len(),
            base == 10 || base == 16,
            acc as nat == radix_value(s@.subrange(0, i as int), base as nat),
        decreases s.len() - i,
    {
        let d = digit_value_exec(s[i]);
        proof {
            assert(s@.subrange(0, i + 1).drop_last() =~= s@.subrange(0, i as int));
        }
        let lim: u64 = (u64::MAX - d) / base;
        let ghost mx: int = u64::MAX as int;
        if acc > lim {
            proof {
                assert(acc * base + d > mx) by (nonlinear_arith)
                    requires
                        acc > lim,
                        lim == (mx - d) / (base as int),
                        base >= 1,
                        d <= mx,
                ;
                lemma_prefix_value_le(s@, i + 1, base as nat);
            }
            return None;
        }
        proof {
            assert(acc * base + d <= mx) by (nonlinear_arith)
                requires
                    acc <= lim,
                    lim == (mx - d) / (base as int),
                    base >= 1,
                    d <= mx,
            ;
        }
        acc = acc * base + d;
        i += 1;
    }
    proof {
        assert(s@.subrange(0, i as int) =~= s@);
    }
    Some(acc)
}

/// The value of the longest leading run of `s` that fits in 64 bits, and its
/// length.
fn read_prefix(s: &Vec<char>) -> (r: (u64, usize))
    ensures
        r.1 as nat == fit_len(s@, 0),
        r.1 <= s.len(),
        r.0 as nat == radix_value(s@.subrange(0, r.1 as int), 10),
{
    let mut acc: u64 = 0;
    let mut i: usize = 0;
    proof {
        assert(s@.subrange(0, 0) =~= Seq::<char>::empty());
    }
    while i < s.len()
        invariant
            i <= s.len(),
            fit_len(s@, i as nat) == fit_len(s@, 0),
            acc as nat == radix_value(s@.subrange(0, i as int), 10),
        decreases s.len() - i,
    {
        let d = digit_value_exec(s[i]);
        proof {
            assert(s@.subrange(0, i + 1).drop_last() =~= s@.subrange(0, i as int));
        }
        let lim: u64 = (u64::MAX - d) / 10;
        let ghost mx: int = u64::MAX as int;
        if acc > lim {
            proof {
                assert(acc * 10 + d > mx) by (nonlinear_arith)
                    requires
                        acc > lim,
                        lim == (mx - d) / 10,
                        d <= mx,
                ;
            }
            return (acc, i);
        }
        proof {
            assert(acc * 10 + d <= mx) by (nonlinear_arith)
                requires
                    acc <= lim,
                    lim == (mx - d) / 10,
                    d <= mx,
            ;
        }
        acc = acc * 10 + d;
        i += 1;
    }
    (acc, i)
}

/// The number that a decimal literal writes (see `decimal_literal`).
pub(crate) fn read_decimal(negative: bool, digits: &Vec<char>, fraction_len: usize) -> (d: Decimal)
    ensures
        d == decimal_literal(negative, digits@, fraction_len as nat),
{
    let (m0, k) = read_prefix(digits);
    let dropped: usize = digits.len() - k;
    if dropped <= fraction_len {
        let sc: usize = fraction_len - dropped;
        if sc > u32::MAX as usize {
            return Decimal { negative: false, mantissa: 0, scale: 0, exponent: 0 };
        }
        let mut m = m0;
        let mut s: u32 = sc as u32;
        while s > 0 && m % 10 == 0
            invariant
                strip_zeros(m as nat, s as nat) == strip_zeros(m0 as nat, sc as nat),
            decreases s,
        {
            m = m / 10;
            s = s - 1;
        }
        Decimal { negative, mantissa: m, scale: s, exponent: 0 }
    } else {
        let ex: usize = dropped - fraction_len;
        if ex > u32::MAX as usize {
            return Decimal { negative: false, mantissa: 0, scale: 0, exponent: 0 };
        }
        Decimal { negative, mantissa: m0, scale: 0, exponent: ex as u32 }
    }
}

/// The number that a hexadecimal literal writes (see `hex_literal`).
pub(crate) fn read_hex(digits: &Vec<char>) -> (d: Decimal)
    ensures
        d == hex_literal(digits@),
{
    match read_radix(digits, 16) {
        None => Decimal { negative: false, mantissa: 0, scale: 0, exponent: 0 },
        Some(m) => Decimal { negative: false, mantissa: m, scale: 0, exponent: 0 },
    }
}

} // verus!
