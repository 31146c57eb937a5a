//! Numbers as people read them.
use vstd::prelude::*;

use crate::text::{decimal, decimal_string, join, joined, texts};

verus! {

// ---------------------------------------------------------------------------
// Quotients in double precision

/// `n / d` to the nearest integer, halves going to the even one.
pub open spec fn half_even(n: nat, d: nat) -> nat {
    let q = n / d;
    let r = n % d;
    if 2 * r < d || (2 * r == d && q % 2 == 0) {
        q
    } else {
        q + 1
    }
}

/// Halving `n / d` until its significand has 53 bits: the divisor then.
pub open spec fn scaled_down(n: nat, d: nat) -> nat
    decreases n - d,
{
    if d > 0 && n >= 9007199254740992 * d {
        scaled_down(n, 2 * d)
    } else {
        d
    }
}

/// Doubling `n / d` until its significand has 53 bits: the dividend then, and how
/// often it was doubled.
pub open spec fn scaled_up(n: nat, d: nat) -> (nat, nat)
    decreases 9007199254740992 * d - n,
{
    if n > 0 && n < 4503599627370496 * d {
        let (m, k) = scaled_up(2 * n, d);
        (m, k + 1)
    } else {
        (n, 0)
    }
}

/// The double nearest to the integer `n`.
pub open spec fn nearest_double(n: nat) -> nat {
    let d = scaled_down(n, 1);
    half_even(n, d) * d
}

pub open spec fn power_of_two(k: nat) -> nat
    decreases k,
{
    if k == 0 {
        1
    } else {
        2 * power_of_two((k - 1) as nat)
    }
}

/// The double nearest to `a / b`, both taken to their nearest doubles first, times
/// `scale` and rounded to an integer.
pub open spec fn quotient(a: nat, b: nat, scale: nat) -> nat {
    let n = nearest_double(a);
    let d = scaled_down(n, nearest_double(b));
    let (m, k) = scaled_up(n, d);
    let significand = half_even(m, d);
    if k == 0 {
        significand * scale * (d / nearest_double(b))
    } else {
        half_even(significand * scale, power_of_two(k))
    }
}

proof fn lemma_power_117()
    ensures
        power_of_two(117) == 0x20_0000_0000_0000_0000_0000_0000_0000,
{
    assert(power_of_two(13) == 0x2000) by {
        reveal_with_fuel(power_of_two, 14);
    }
    assert(power_of_two(26) == 0x4000000) by {
        reveal_with_fuel(power_of_two, 14);
    }
    assert(power_of_two(39) == 0x8000000000) by {
        reveal_with_fuel(power_of_two, 14);
    }
    assert(power_of_two(52) == 0x10000000000000) by {
        reveal_with_fuel(power_of_two, 14);
    }
    assert(power_of_two(65) == 0x20000000000000000) by {
        reveal_with_fuel(power_of_two, 14);
    }
    assert(power_of_two(78) == 0x40000000000000000000) by {
        reveal_with_fuel(power_of_two, 14);
    }
    assert(power_of_two(91) == 0x80000000000000000000000) by {
        reveal_with_fuel(power_of_two, 14);
    }
    assert(power_of_two(104) == 0x100000000000000000000000000) by {
        reveal_with_fuel(power_of_two, 14);
    }
    assert(power_of_two(117) == 0x200000000000000000000000000000) by {
        reveal_with_fuel(power_of_two, 14);
    }
}

proof fn lemma_power_grows(k: nat, n: nat)
    requires
        k <= n,
    ensures
        0 < power_of_two(k) <= power_of_two(n),
    decreases n,
{
    if k < n {
        lemma_power_grows(k, (n - 1) as nat);
    } else if k > 0 {
        lemma_power_grows((k - 1) as nat, (k - 1) as nat);
    }
}

fn power(k: u32) -> (p: u128)
    requires
        k <= 117,
    ensures
        p == power_of_two(k as nat),
        0 < p <= 0x20_0000_0000_0000_0000_0000_0000_0000,
{
    let mut p: u128 = 1;
    let mut i: u32 = 0;
    while i < k
        invariant
            i <= k <= 117,
            p == power_of_two(i as nat),
        decreases k - i,
    {
        proof {
            lemma_power_117();
            lemma_power_grows(i as nat, 117);
        }
        p = 2 * p;
        i = i + 1;
    }
    proof {
        lemma_power_117();
        lemma_power_grows(k as nat, 117);
    }
    p
}

proof fn lemma_quotient_bound(n: nat, d: nat, limit: nat)
    requires
        d > 0,
        n < limit * d,
    ensures
        n / d < limit,
{
    assert(n / d < limit) by (nonlinear_arith)
        requires
            d > 0,
            n < limit * d,
    ;
}

fn half_even_of(n: u128, d: u128) -> (r: u128)
    requires
        d > 0,
        d < 0x8000_0000_0000_0000_0000_0000_0000_0000,
        n < 0x8000_0000_0000_0000_0000_0000_0000_0000,
    ensures
        r == half_even(n as nat, d as nat),
{
    let q: u128 = n / d;
    let r: u128 = n % d;
    proof {
        assert(q <= n) by (nonlinear_arith)
            requires
                q == n / d,
                d > 0,
        ;
    }
    if 2 * r < d || (2 * r == d && q % 2 == 0) {
        q
    } else {
        q + 1
    }
}

fn scale_down(n: u128, d: u128) -> (r: u128)
    requires
        0 < d,
        d <= 0x1_0000_0000_0000_0000,
        n <= 0x1_0000_0000_0000_0000,
    ensures
        r == scaled_down(n as nat, d as nat),
        d <= r,
        r > d ==> n >= 4503599627370496 * r,
        n < 9007199254740992 * r,
{
    let mut r: u128 = d;
    while n >= 9007199254740992 * r
        invariant
            0 < d <= r,
            d <= 0x1_0000_0000_0000_0000,
            r <= 0x1_0000_0000_0000_0000,
            n <= 0x1_0000_0000_0000_0000,
            r > d ==> n >= 4503599627370496 * r,
            scaled_down(n as nat, d as nat) == scaled_down(n as nat, r as nat),
        decreases 0x1_0000_0000_0000_0000 - r,
    {
        r = 2 * r;
    }
    r
}


fn scale_up(n: u128, d: u128) -> (r: (u128, u32))
    requires
        0 < n,
        0 < d <= 0x1_0000_0000_0000_0000,
        n < 9007199254740992 * d,
    ensures
        r.0 == scaled_up(n as nat, d as nat).0,
        r.1 == scaled_up(n as nat, d as nat).1,
        4503599627370496 * d <= r.0 < 9007199254740992 * d,
        r.1 <= 117,
{
    let mut m: u128 = n;
    let mut k: u32 = 0;
    proof {
        lemma_power_117();
        assert(power_of_two(0) == 1);
    }
    while m < 4503599627370496 * d
        invariant
            0 < n,
            0 < d <= 0x1_0000_0000_0000_0000,
            0 < m < 9007199254740992 * d,
            m == n * power_of_two(k as nat),
            k <= 117,
            power_of_two(117) == 0x20_0000_0000_0000_0000_0000_0000_0000,
            scaled_up(n as nat, d as nat).0 == scaled_up(m as nat, d as nat).0,
            scaled_up(n as nat, d as nat).1 == scaled_up(m as nat, d as nat).1 + k,
        decreases 9007199254740992 * d - m,
    {
        proof {
            assert(n * power_of_two(k as nat) >= power_of_two(k as nat)) by (nonlinear_arith)
                requires
                    n >= 1,
            ;
            if k == 117 {
                assert(m >= 0x20_0000_0000_0000_0000_0000_0000_0000);
            }
            assert(power_of_two((k + 1) as nat) == 2 * power_of_two(k as nat));
            assert(2 * (n * power_of_two(k as nat)) == n * (2 * power_of_two(k as nat)))
                by (nonlinear_arith);
        }
        m = 2 * m;
        k = k + 1;
    }
    (m, k)
}


fn nearest_double_of(n: u64) -> (r: u128)
    ensures
        r == nearest_double(n as nat),
        r <= 0x1_0000_0000_0000_0000,
        n > 0 ==> r > 0,
{
    let d = scale_down(n as u128, 1);
    let h = half_even_of(n as u128, d);
    proof {
        lemma_quotient_bound(n as nat, d as nat, 9007199254740992);
        lemma_nearest_double(n as nat, d as nat);
    }
    h * d
}

proof fn lemma_scaled_down(n: nat, d: nat)
    requires
        d > 0,
        d <= 0x1_0000_0000_0000_0000,
        n <= 0x1_0000_0000_0000_0000,
        exists|k: nat| d == #[trigger] power_of_two(k),
    ensures
        scaled_down(n, d) >= d,
        exists|k: nat| scaled_down(n, d) == #[trigger] power_of_two(k),
        scaled_down(n, d) > d ==> n >= 4503599627370496 * scaled_down(n, d),
    decreases n - d,
{
    if n >= 9007199254740992 * d {
        let k = choose|k: nat| d == #[trigger] power_of_two(k);
        assert(2 * d == power_of_two(k + 1));
        lemma_scaled_down(n, 2 * d);
    }
}

proof fn lemma_nearest_double(n: nat, d: nat)
    requires
        n <= 0xffff_ffff_ffff_ffff,
        d == scaled_down(n, 1),
        d > 0,
        n < 9007199254740992 * d,
        d > 1 ==> n >= 4503599627370496 * d,
    ensures
        half_even(n, d) * d <= 0x1_0000_0000_0000_0000,
        n > 0 ==> half_even(n, d) * d > 0,
{
    // The divisor is one of 1, 2, .., 4096.
    assert(power_of_two(0) == 1);
    lemma_scaled_down(n, 1);
    let k = choose|k: nat| d == #[trigger] power_of_two(k);
    assert(d <= 4096);
    if k > 12 {
        lemma_power_grows(13, k);
        assert(power_of_two(13) == 8192) by {
            reveal_with_fuel(power_of_two, 14);
        }
    }
    assert(d == 1 || d == 2 || d == 4 || d == 8 || d == 16 || d == 32 || d == 64 || d == 128 || d
        == 256 || d == 512 || d == 1024 || d == 2048 || d == 4096) by {
        reveal_with_fuel(power_of_two, 14);
    }
    assert(n % 1 == 0);
}

/// The double nearest to `a / b`, times `scale` and rounded to an integer.
pub fn double_quotient(a: u64, b: u64, scale: u64) -> (r: u128)
    requires
        b > 0,
        scale <= 1000,
    ensures
        r == quotient(a as nat, b as nat, scale as nat),
{
    let n = nearest_double_of(a);
    let nb = nearest_double_of(b);
    if n == 0 {
        proof {
            assert(scaled_down(0, nb as nat) == nb as nat);
            assert(half_even(0, nb as nat) == 0) by (nonlinear_arith)
                requires
                    nb > 0,
            ;
            assert(0 * (scale as nat) * (nb as nat / nb as nat) == 0) by (nonlinear_arith);
        }
        return 0;
    }
    let d = scale_down(n, nb);
    let (m, k) = scale_up(n, d);
    let h = half_even_of(m, d);
    proof {
        lemma_quotient_bound(m as nat, d as nat, 9007199254740992);
        assert(h <= 9007199254740992);
        assert(h * scale <= 9007199254740992 * 1000) by (nonlinear_arith)
            requires
                h <= 9007199254740992,
                scale <= 1000,
        ;
    }
    if k == 0 {
        let f: u128 = d / nb;
        proof {
            assert(f <= 4096) by (nonlinear_arith)
                requires
                    f == d / nb,
                    nb >= 1,
                    d > nb ==> n >= 4503599627370496 * d,
                    n <= 0x1_0000_0000_0000_0000,
                    d >= nb,
            {
                if d > nb {
                    assert(d <= 4096);
                    assert(d / nb <= d);
                } else {
                    assert(d / nb == 1);
                }
            }
            assert(h * scale * f <= 9007199254740992 * 1000 * 4096) by (nonlinear_arith)
                requires
                    h * scale <= 9007199254740992 * 1000,
                    f <= 4096,
            ;
        }
        h * scale as u128 * f
    } else {
        let p = power(k);
        half_even_of(h * scale as u128, p)
    }
}


// ---------------------------------------------------------------------------
// Text

/// `n` tenths, with one digit behind the point.
pub open spec fn tenths(n: nat) -> Seq<char> {
    decimal(n / 10) + "."@ + decimal(n % 10)
}

/// `n` hundredths, with two digits behind the point.
pub open spec fn hundredths(n: nat) -> Seq<char> {
    decimal(n / 100) + "."@ + decimal(n / 10 % 10) + decimal(n % 10)
}

fn tenths_text(n: u128) -> (s: String)
    ensures
        s@ == tenths(n as nat),
{
    let mut s = decimal_string(n / 10);
    s.append(".");
    s.append(decimal_string(n % 10).as_str());
    s
}

fn hundredths_text(n: u128) -> (s: String)
    ensures
        s@ == hundredths(n as nat),
{
    let mut s = decimal_string(n / 100);
    s.append(".");
    s.append(decimal_string(n / 10 % 10).as_str());
    s.append(decimal_string(n % 10).as_str());
    s
}

/// `a / b`, computed in double precision, with two digits behind the point.
pub open spec fn ratio(a: nat, b: nat) -> Seq<char> {
    hundredths(quotient(a, b, 100))
}

/// `a / b` with two digits behind the point.
pub fn ratio_text(a: u64, b: u64) -> (s: String)
    requires
        b > 0,
    ensures
        s@ == ratio(a as nat, b as nat),
{
    hundredths_text(double_quotient(a, b, 100))
}

/// A number of bytes in the largest unit of which it holds at least one.
pub open spec fn size_text(n: nat) -> Seq<char> {
    if n < 1024 {
        decimal(n) + " B"@
    } else if n < 1048576 {
        tenths(quotient(n, 1024, 10)) + " KB"@
    } else if n < 1073741824 {
        tenths(quotient(n, 1048576, 10)) + " MB"@
    } else if n < 1099511627776 {
        tenths(quotient(n, 1073741824, 10)) + " GB"@
    } else {
        tenths(quotient(n, 1099511627776, 10)) + " TB"@
    }
}

/// A number of bytes for display.
pub fn format_size(n: u64) -> (s: String)
    ensures
        s@ == size_text(n as nat),
{
    if n < 1024 {
        decimal_string(n as u128).concat(" B")
    } else if n < 1048576 {
        tenths_text(double_quotient(n, 1024, 10)).concat(" KB")
    } else if n < 1073741824 {
        tenths_text(double_quotient(n, 1048576, 10)).concat(" MB")
    } else if n < 1099511627776 {
        tenths_text(double_quotient(n, 1073741824, 10)).concat(" GB")
    } else {
        tenths_text(double_quotient(n, 1099511627776, 10)).concat(" TB")
    }
}

/// A number of parameters in thousands, millions or billions.
pub open spec fn parameters_text(n: nat) -> Seq<char> {
    if n < 1000 {
        decimal(n)
    } else if n < 1000000 {
        tenths(quotient(n, 1000, 10)) + "K"@
    } else if n < 1000000000 {
        tenths(quotient(n, 1000000, 10)) + "M"@
    } else {
        tenths(quotient(n, 1000000000, 10)) + "B"@
    }
}

/// A number of parameters for display.
pub fn format_parameters(n: u64) -> (s: String)
    ensures
        s@ == parameters_text(n as nat),
{
    if n < 1000 {
        decimal_string(n as u128)
    } else if n < 1000000 {
        tenths_text(double_quotient(n, 1000, 10)).concat("K")
    } else if n < 1000000000 {
        tenths_text(double_quotient(n, 1000000, 10)).concat("M")
    } else {
        tenths_text(double_quotient(n, 1000000000, 10)).concat("B")
    }
}

/// The numbers of a list in decimal.
pub open spec fn number_texts(v: Seq<usize>) -> Seq<Seq<char>> {
    v.map_values(|n: usize| decimal(n as nat))
}

/// The numbers of a list in decimal.
pub fn number_strings(v: &[usize]) -> (r: Vec<String>)
    ensures
        texts(r@) == number_texts(v@),
{
    let mut r: Vec<String> = Vec::new();
    let mut i: usize = 0;
    while i < v.len()
        invariant
            i <= v.len(),
            r.len() == i,
            forall|j: int| 0 <= j < i ==> (#[trigger] r@[j])@ == decimal(v@[j] as nat),
        decreases v.len() - i,
    {
        r.push(decimal_string(v[i] as u128));
        i = i + 1;
    }
    proof {
        assert(texts(r@) =~= number_texts(v@));
    }
    r
}

/// A shape in brackets.
pub open spec fn shape_text(shape: Seq<usize>) -> Seq<char> {
    "("@ + join(number_texts(shape), ", "@) + ")"@
}

/// A shape for display.
pub fn format_shape(shape: &[usize]) -> (s: String)
    ensures
        s@ == shape_text(shape@),
{
    let parts = number_strings(shape);
    "(".to_owned().concat(joined(&parts, ", ").as_str()).concat(")")
}

// ---------------------------------------------------------------------------
// How near the text is to the number

/// Rounding goes to the nearest integer.
pub proof fn law_rounding_is_nearest(n: nat, d: nat)
    requires
        d > 0,
    ensures
        2 * (half_even(n, d) * d) <= 2 * n + d,
        2 * n <= 2 * (half_even(n, d) * d) + d,
        n % d == 0 ==> half_even(n, d) * d == n,
{
    let q = n / d;
    let r = n % d;
    vstd::arithmetic::div_mod::lemma_fundamental_div_mod(n as int, d as int);
    assert(n == q * d + r) by (nonlinear_arith)
        requires
            n == d * q + r,
    ;
    assert((q + 1) * d == q * d + d) by (nonlinear_arith);
}

proof fn lemma_scaled_up(n: nat, d: nat)
    requires
        n > 0,
        d > 0,
    ensures
        scaled_up(n, d).0 == n * power_of_two(scaled_up(n, d).1),
        scaled_up(n, d).0 >= 4503599627370496 * d,
    decreases 9007199254740992 * d - n,
{
    if n < 4503599627370496 * d {
        lemma_scaled_up(2 * n, d);
        let (m, k) = scaled_up(2 * n, d);
        let p = power_of_two(k);
        assert(scaled_up(n, d) == (m, k + 1));
        assert(power_of_two(k + 1) == 2 * p);
        assert((2 * n) * p == n * (2 * p)) by (nonlinear_arith);
    } else {
        assert(power_of_two(0) == 1);
        assert(n * 1 == n);
    }
}

/// A number below 2^53 is a double itself.
pub proof fn law_small_numbers_are_doubles(n: nat)
    requires
        n < 9007199254740992,
    ensures
        nearest_double(n) == n,
{
    assert(scaled_down(n, 1) == 1);
    law_rounding_is_nearest(n, 1);
    assert(n % 1 == 0);
    assert(half_even(n, 1) * 1 == half_even(n, 1));
}

/// Below 2^53, a quotient that is not above 2^42 comes out to within one of what it is of: `a *
/// scale / b`.
pub proof fn law_quotients_are_near(a: nat, b: nat, scale: nat)
    requires
        0 < b < 9007199254740992,
        a < 9007199254740992,
        a <= 4398046511104 * b,
        scale <= 1000,
    ensures
        quotient(a, b, scale) * b <= a * scale + b,
        a * scale <= quotient(a, b, scale) * b + b,
{
    law_small_numbers_are_doubles(a);
    law_small_numbers_are_doubles(b);
    assert(scaled_down(a, b) == b);
    let q = quotient(a, b, scale);
    if a == 0 {
        assert(scaled_up(0, b) == (0nat, 0nat));
        law_rounding_is_nearest(0, b);
        assert(0nat % b == 0) by (nonlinear_arith)
            requires
                b > 0,
        ;
        let h = half_even(0, b);
        assert(h == 0) by (nonlinear_arith)
            requires
                h * b == 0,
                b > 0,
        ;
        assert(0 * scale * (b / b) == 0) by (nonlinear_arith);
        assert(q == 0);
        assert(0 * b == 0 && 0 * scale == 0) by (nonlinear_arith);
    } else {
        lemma_scaled_up(a, b);
        let (m, k) = scaled_up(a, b);
        let p = power_of_two(k);
        let h = half_even(m, b);
        lemma_power_grows(0, k);
        assert(p >= 1024) by (nonlinear_arith)
            requires
                a * p >= 4503599627370496 * b,
                a <= 4398046511104 * b,
                b > 0,
                p > 0,
        ;
        assert(k > 0);
        law_rounding_is_nearest(m, b);
        law_rounding_is_nearest(h * scale, p);
        lemma_two_roundings(a as int, b as int, scale as int, p as int, h as int, q as int);
    }
}

proof fn lemma_two_roundings(a: int, b: int, scale: int, p: int, h: int, q: int)
    requires
        b > 0,
        p >= 1024,
        0 <= scale <= 1000,
        2 * (h * b) <= 2 * (a * p) + b,
        2 * (a * p) <= 2 * (h * b) + b,
        2 * (q * p) <= 2 * (h * scale) + p,
        2 * (h * scale) <= 2 * (q * p) + p,
    ensures
        q * b <= a * scale + b,
        a * scale <= q * b + b,
{
    // All in units of 1 / p: q * b * p against a * scale * p.
    assert(2 * ((h * b) * scale) <= 2 * ((a * p) * scale) + b * scale) by (nonlinear_arith)
        requires
            2 * (h * b) <= 2 * (a * p) + b,
            0 <= scale,
    ;
    assert(2 * ((a * p) * scale) <= 2 * ((h * b) * scale) + b * scale) by (nonlinear_arith)
        requires
            2 * (a * p) <= 2 * (h * b) + b,
            0 <= scale,
    ;
    assert(2 * ((q * p) * b) <= 2 * ((h * scale) * b) + p * b) by (nonlinear_arith)
        requires
            2 * (q * p) <= 2 * (h * scale) + p,
            b > 0,
    ;
    assert(2 * ((h * scale) * b) <= 2 * ((q * p) * b) + p * b) by (nonlinear_arith)
        requires
            2 * (h * scale) <= 2 * (q * p) + p,
            b > 0,
    ;
    assert((h * scale) * b == (h * b) * scale) by (nonlinear_arith);
    assert(b * scale <= p * b) by (nonlinear_arith)
        requires
            scale <= 1000,
            p >= 1024,
            b > 0,
    ;
    let (x, y) = (q * b, a * scale);
    assert((q * p) * b == x * p) by (nonlinear_arith)
        requires
            x == q * b,
    ;
    assert((a * p) * scale == y * p) by (nonlinear_arith)
        requires
            y == a * scale,
    ;
    assert(x * p <= y * p + b * p) by (nonlinear_arith)
        requires
            2 * (x * p) <= 2 * (y * p) + 2 * (p * b),
    ;
    assert(y * p <= x * p + b * p) by (nonlinear_arith)
        requires
            2 * (y * p) <= 2 * (x * p) + 2 * (p * b),
    ;
    assert(x <= y + b) by (nonlinear_arith)
        requires
            x * p <= y * p + b * p,
            p > 0,
    ;
    assert(y <= x + b) by (nonlinear_arith)
        requires
            y * p <= x * p + b * p,
            p > 0,
    ;
}

/// Whether a text writes `n / unit` to within a tenth, with one digit behind the point.
pub open spec fn writes_tenths(s: Seq<char>, n: nat, unit: nat, suffix: Seq<char>) -> bool {
    exists|t: nat| #[trigger]
        is_tenths(s, t, suffix) && t * unit <= 10 * n + unit && 10 * n <= t * unit + unit
}

pub open spec fn is_tenths(s: Seq<char>, t: nat, suffix: Seq<char>) -> bool {
    s == decimal(t / 10) + "."@ + decimal(t % 10) + suffix
}

proof fn lemma_writes_tenths(n: nat, unit: nat, suffix: Seq<char>)
    requires
        0 < unit < 9007199254740992,
        n < 9007199254740992,
        n <= 4398046511104 * unit,
    ensures
        writes_tenths(tenths(quotient(n, unit, 10)) + suffix, n, unit, suffix),
{
    law_quotients_are_near(n, unit, 10);
    assert(is_tenths(tenths(quotient(n, unit, 10)) + suffix, quotient(n, unit, 10), suffix));
}

/// A number of bytes below 2^53 is written in the largest of B, KB, MB, GB and TB of which it
/// holds one, each 1024 of the one before, to within a tenth.
pub proof fn law_sizes_are_near(n: nat)
    requires
        n < 9007199254740992,
    ensures
        n < 1024 ==> size_text(n) == decimal(n) + " B"@,
        1024 <= n < 1024 * 1024 ==> writes_tenths(size_text(n), n, 1024, " KB"@),
        1024 * 1024 <= n < 1024 * 1024 * 1024 ==> writes_tenths(
            size_text(n),
            n,
            1024 * 1024,
            " MB"@,
        ),
        1024 * 1024 * 1024 <= n < 1024 * 1024 * 1024 * 1024 ==> writes_tenths(
            size_text(n),
            n,
            1024 * 1024 * 1024,
            " GB"@,
        ),
        1024 * 1024 * 1024 * 1024 <= n ==> writes_tenths(
            size_text(n),
            n,
            1024 * 1024 * 1024 * 1024,
            " TB"@,
        ),
{
    if n < 1048576 {
        lemma_writes_tenths(n, 1024, " KB"@);
    } else if n < 1073741824 {
        lemma_writes_tenths(n, 1048576, " MB"@);
    } else if n < 1099511627776 {
        lemma_writes_tenths(n, 1073741824, " GB"@);
    } else {
        lemma_writes_tenths(n, 1099511627776, " TB"@);
    }
}

/// A number of parameters below 2^53 is written in the largest of units, thousands, millions
/// and billions of which it holds one, to within a tenth.
pub proof fn law_parameters_are_near(n: nat)
    requires
        n < 9007199254740992,
    ensures
        n < 1000 ==> parameters_text(n) == decimal(n),
        1000 <= n < 1000000 ==> writes_tenths(parameters_text(n), n, 1000, "K"@),
        1000000 <= n < 1000000000 ==> writes_tenths(parameters_text(n), n, 1000000, "M"@),
        1000000000 <= n ==> writes_tenths(parameters_text(n), n, 1000000000, "B"@),
{
    if n < 1000000 {
        lemma_writes_tenths(n, 1000, "K"@);
    } else if n < 1000000000 {
        lemma_writes_tenths(n, 1000000, "M"@);
    } else {
        lemma_writes_tenths(n, 1000000000, "B"@);
    }
}

/// A ratio of numbers below 2^53 is written with two digits behind the point, to within a
/// hundredth.
pub proof fn law_ratios_are_near(a: nat, b: nat)
    requires
        0 < b < 9007199254740992,
        a < 9007199254740992,
        a <= 4398046511104 * b,
    ensures
        exists|h: nat|
            ratio(a, b) == #[trigger] decimal(h / 100) + "."@ + decimal(h / 10 % 10) + decimal(
                h % 10,
            ) && h * b <= 100 * a + b && 100 * a <= h * b + b,
{
    law_quotients_are_near(a, b, 100);
    let h = quotient(a, b, 100);
    assert(ratio(a, b) == decimal(h / 100) + "."@ + decimal(h / 10 % 10) + decimal(h % 10));
}

/// A shape is written as its dimensions in decimal, in their order, with a comma and a space
/// between them, in brackets.
pub proof fn law_shapes_are_lists(shape: Seq<usize>, d: usize)
    ensures
        shape_text(Seq::empty()) == "()"@,
        shape_text(seq![d]) == "("@ + decimal(d as nat) + ")"@,
        shape.len() > 0 ==> shape_text(shape.push(d)) == shape_text(shape).drop_last() + ", "@
            + decimal(d as nat) + ")"@,
{
    reveal_strlit("(");
    reveal_strlit(")");
    reveal_strlit("()");
    reveal_strlit(", ");
    assert(number_texts(Seq::empty()) =~= Seq::empty());
    assert(shape_text(Seq::empty()) =~= "()"@);
    assert(number_texts(seq![d]) =~= seq![decimal(d as nat)]);
    let all = number_texts(shape.push(d));
    assert(all =~= number_texts(shape).push(decimal(d as nat)));
    assert(all.drop_last() =~= number_texts(shape));
    if shape.len() > 0 {
        assert(shape_text(shape).drop_last() =~= "("@ + join(number_texts(shape), ", "@));
        assert(shape_text(shape.push(d)) =~= shape_text(shape).drop_last() + ", "@ + decimal(
            d as nat,
        ) + ")"@);
    }
}

} // verus!
