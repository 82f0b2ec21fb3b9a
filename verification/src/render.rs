//! Text for the report and the interactive view: byte sizes with binary
//! units, speeds, and names cut to a column width.
use vstd::prelude::*;

use crate::memory::Percent;
use crate::text::{chars_of, string_of};

verus! {

/// The decimal digit character for `d < 10`.
pub open spec fn digit_char(d: nat) -> char {
    (48 + d) as char
}

/// `n` written in decimal, without leading zeros.
pub open spec fn decimal(n: nat) -> Seq<char>
    decreases n,
{
    if n < 10 {
        seq![digit_char(n)]
    } else {
        decimal(n / 10).push(digit_char(n % 10))
    }
}

/// `2^e`.
pub open spec fn pow2n(e: nat) -> nat
    decreases e,
{
    if e == 0 {
        1
    } else {
        2 * pow2n((e - 1) as nat)
    }
}

/// The number of binary digits of `n` (zero for zero).
pub open spec fn bit_len(n: nat) -> nat
    decreases n,
{
    if n == 0 {
        0
    } else {
        1 + bit_len(n / 2)
    }
}

/// `a / d` rounded to the nearest whole number, ties to the even one.
pub open spec fn round_div(a: nat, d: nat) -> nat {
    let q = a / d;
    let r = a % d;
    if 2 * r > d || (2 * r == d && q % 2 == 1) {
        q + 1
    } else {
        q
    }
}

/// `n as f64`: exact up to 53 binary digits, otherwise rounded to the nearest
/// value with 53 significant binary digits, ties to even.
pub open spec fn as_f64(n: nat) -> nat {
    if bit_len(n) <= 53 {
        n
    } else {
        let p = pow2n((bit_len(n) - 53) as nat);
        round_div(n, p) * p
    }
}

/// `t / 10` with one decimal digit, for a count `t` of tenths.
pub open spec fn tenths_text(t: nat) -> Seq<char> {
    decimal(t / 10).push('.').push(digit_char(t % 10))
}

/// `format_bytes`: the size in GiB, MiB or KiB with one decimal (from the
/// size as a float, rounded half to even), or in whole bytes below 1 KiB.
pub open spec fn bytes_text(bytes: u64) -> Seq<char> {
    let v = as_f64(bytes as nat);
    if v >= pow2n(30) {
        tenths_text(round_div(v * 10, pow2n(30))) + " GiB"@
    } else if v >= pow2n(20) {
        tenths_text(round_div(v * 10, pow2n(20))) + " MiB"@
    } else if v >= pow2n(10) {
        tenths_text(round_div(v * 10, pow2n(10))) + " KiB"@
    } else {
        decimal(v) + " B"@
    }
}

/// The quotient `a / b` lies in binade `k`: scaled by `2^(200 - k)` it is at
/// least `2^52` and below `2^53`, so the double nearest to it is a 53-bit
/// significand times `2^(k - 200)`.
pub open spec fn in_binade(a: nat, b: nat, k: nat) -> bool {
    &&& pow2n(52) * b * pow2n(k) <= a * pow2n(200)
    &&& a * pow2n(200) < pow2n(53) * b * pow2n(k)
}

/// The binade of `a / b` (see `in_binade`).
pub open spec fn binade(a: nat, b: nat) -> nat {
    choose|k: nat| in_binade(a, b, k)
}

/// The significand of the double nearest to `a / b` (ties to even): the
/// double is this times `2^(binade(a, b) - 200)`.
pub open spec fn quotient_significand(a: nat, b: nat) -> nat {
    round_div(a * pow2n(200), b * pow2n(binade(a, b)))
}

/// `(a / b) * 100` computed in doubles (the quotient and the product each
/// rounded to the nearest double, ties to even) and counted in tenths,
/// rounded half to even.
pub open spec fn percent_tenths(a: nat, b: nat) -> nat {
    round_div(as_f64(quotient_significand(a, b) * 100) * 10 * pow2n(binade(a, b)), pow2n(200))
}

/// `format_percent`: `(part as f64 / whole as f64) * 100.0` with one decimal
/// and a percent sign, or `N/A`; a zero whole gives `NaN%` (for a zero part)
/// or `inf%`.
pub open spec fn percent_text(value: Option<Percent>) -> Seq<char> {
    match value {
        None => "N/A"@,
        Some(p) => if p.whole == 0 {
            if p.part == 0 {
                "NaN%"@
            } else {
                "inf%"@
            }
        } else if p.part == 0 {
            "0.0%"@
        } else {
            tenths_text(percent_tenths(as_f64(p.part as nat), as_f64(p.whole as nat))) + "%"@
        },
    }
}

/// `format_speed`: a speed in MT/s, or `N/A`.
pub open spec fn speed_text(value: Option<u64>) -> Seq<char> {
    match value {
        Some(v) => decimal(v as nat) + " MT/s"@,
        None => "N/A"@,
    }
}

fn digit_of(d: u128) -> (c: char)
    requires
        d < 10,
    ensures
        c == digit_char(d as nat),
{
    let b: u8 = 48 + d as u8;
    b as char
}

/// `n` in decimal.
pub fn decimal_chars(n: u128) -> (v: Vec<char>)
    ensures
        v@ == decimal(n as nat),
    decreases n,
{
    if n < 10 {
        let mut v = Vec::new();
        v.push(digit_of(n));
        v
    } else {
        let mut v = decimal_chars(n / 10);
        v.push(digit_of(n % 10));
        v
    }
}

fn push_str(v: &mut Vec<char>, s: &str)
    ensures
        final(v)@ == old(v)@ + s@,
{
    let t = chars_of(s);
    let mut i: usize = 0;
    while i < t.len()
        invariant
            i <= t.len(),
            t@ == s@,
            v@ == old(v)@ + t@.take(i as int),
        decreases t.len() - i,
    {
        v.push(t[i]);
        assert(t@.take(i + 1) == t@.take(i as int).push(t@[i as int]));
        i += 1;
    }
    assert(t@.take(t.len() as int) == t@);
}

fn round_div_exec(a: u128, d: u128) -> (r: u128)
    requires
        d > 0,
        a / d < u128::MAX,
    ensures
        r == round_div(a as nat, d as nat),
{
    let q = a / d;
    let r = a % d;
    if r > d - r || (r == d - r && q % 2 == 1) {
        q + 1
    } else {
        q
    }
}

/// `round_div` depends on the ratio `x / y` alone.
proof fn lemma_round_div_ratio(x1: nat, y1: nat, x2: nat, y2: nat)
    requires
        y1 > 0,
        y2 > 0,
        x1 * y2 == x2 * y1,
    ensures
        round_div(x1, y1) == round_div(x2, y2),
{
    let q1 = x1 / y1;
    let r1 = x1 % y1;
    let q2 = x2 / y2;
    let r2 = x2 % y2;
    vstd::arithmetic::div_mod::lemma_fundamental_div_mod(x1 as int, y1 as int);
    vstd::arithmetic::div_mod::lemma_fundamental_div_mod(x2 as int, y2 as int);
    vstd::arithmetic::div_mod::lemma_mod_bound(x1 as int, y1 as int);
    vstd::arithmetic::div_mod::lemma_mod_bound(x2 as int, y2 as int);
    assert(x1 == y1 * q1 + r1);
    assert(x2 == y2 * q2 + r2);
    // Both products equal `y1 * y2 * q + (remainder) * (other divisor)`.
    assert(y1 * y2 * q1 + r1 * y2 == y1 * y2 * q2 + r2 * y1) by (nonlinear_arith)
        requires
            x1 == y1 * q1 + r1,
            x2 == y2 * q2 + r2,
            x1 * y2 == x2 * y1,
    ;
    assert(r1 * y2 < y1 * y2) by (nonlinear_arith)
        requires
            r1 < y1,
            y2 > 0,
    ;
    assert(r2 * y1 < y1 * y2) by (nonlinear_arith)
        requires
            r2 < y2,
            y1 > 0,
    ;
    if q1 > q2 {
        assert(y1 * y2 * q1 >= y1 * y2 * q2 + y1 * y2) by (nonlinear_arith)
            requires
                q1 >= q2 + 1,
                y1 * y2 >= 0,
        ;
        assert(false);
    }
    if q2 > q1 {
        assert(y1 * y2 * q2 >= y1 * y2 * q1 + y1 * y2) by (nonlinear_arith)
            requires
                q2 >= q1 + 1,
                y1 * y2 >= 0,
        ;
        assert(false);
    }
    assert(r1 * y2 == r2 * y1);
    assert(2 * r1 > y1 <==> 2 * r2 > y2) by (nonlinear_arith)
        requires
            r1 * y2 == r2 * y1,
            y1 > 0,
            y2 > 0,
    ;
    assert(2 * r1 == y1 <==> 2 * r2 == y2) by (nonlinear_arith)
        requires
            r1 * y2 == r2 * y1,
            y1 > 0,
            y2 > 0,
    ;
}

/// `2^e` for `e <= 127`.
fn pow2_exec(e: u32) -> (p: u128)
    requires
        e <= 127,
    ensures
        p == pow2n(e as nat),
        p > 0,
{
    let mut p: u128 = 1;
    let mut i: u32 = 0;
    while i < e
        invariant
            i <= e <= 127,
            p == pow2n(i as nat),
            p > 0,
        decreases e - i,
    {
        proof {
            lemma_pow2n_mono(i as nat, 126);
            lemma_pow2n_126();
        }
        p = p * 2;
        i += 1;
    }
    p
}

proof fn lemma_pow2n_126()
    ensures
        pow2n(126) == 0x4000_0000_0000_0000_0000_0000_0000_0000,
{
    lemma_pow2n_63();
    lemma_pow2n_adds(63, 63);
}

proof fn lemma_pow2n_mono(a: nat, b: nat)
    requires
        a <= b,
    ensures
        pow2n(a) <= pow2n(b),
    decreases b,
{
    if a < b {
        lemma_pow2n_mono(a, (b - 1) as nat);
        lemma_pow2n_pos((b - 1) as nat);
    }
}

proof fn lemma_pow2n_pos(e: nat)
    ensures
        pow2n(e) > 0,
    decreases e,
{
    if e > 0 {
        lemma_pow2n_pos((e - 1) as nat);
    }
}

proof fn lemma_pow2n_63()
    ensures
        pow2n(63) == 0x8000_0000_0000_0000,
{
    reveal_with_fuel(pow2n, 64);
}

/// `n` is below `2^bit_len(n)`.
proof fn lemma_bit_len_bound(n: nat)
    ensures
        n < pow2n(bit_len(n)),
        n > 0 ==> pow2n((bit_len(n) - 1) as nat) <= n,
    decreases n,
{
    if n > 0 {
        lemma_bit_len_bound(n / 2);
        if n / 2 > 0 {
        } else {
            assert(bit_len(n / 2) == 0);
        }
    }
}

/// A number below `2^k` has at most `k` binary digits.
proof fn lemma_bit_len_at_most(n: nat, k: nat)
    requires
        n < pow2n(k),
    ensures
        bit_len(n) <= k,
    decreases n,
{
    if n > 0 {
        if k == 0 {
            assert(pow2n(0) == 1);
        } else {
            lemma_bit_len_at_most(n / 2, (k - 1) as nat);
        }
    }
}

proof fn lemma_pow2n_adds(a: nat, b: nat)
    ensures
        pow2n(a + b) == pow2n(a) * pow2n(b),
    decreases a,
{
    if a > 0 {
        let a1 = (a - 1) as nat;
        lemma_pow2n_adds(a1, b);
        let x = pow2n(a1);
        let y = pow2n(b);
        let s = (a + b) as nat;
        assert(s > 0);
        assert((s - 1) as nat == a1 + b);
        assert(pow2n(s) == 2 * pow2n((s - 1) as nat));
        assert(pow2n(a1 + b) == x * y);
        assert(pow2n(a) == 2 * x);
        assert(2 * (x * y) == (2 * x) * y) by (nonlinear_arith);
    } else {
        assert(pow2n(a) == 1);
        assert(a + b == b);
    }
}

proof fn lemma_pow2n_64()
    ensures
        pow2n(64) == 0x1_0000_0000_0000_0000,
{
    reveal_with_fuel(pow2n, 65);
}

/// The value of `n as f64`, which is at most `2^64`.
fn as_f64_exec(n: u64) -> (v: u128)
    ensures
        v == as_f64(n as nat),
        v <= 0x1_0000_0000_0000_0000,
{
    proof {
        lemma_pow2n_64();
        lemma_bit_len_at_most(n as nat, 64);
    }
    let mut bits: u32 = 0;
    let mut m: u64 = n;
    while m > 0
        invariant
            bit_len(n as nat) == bits + bit_len(m as nat),
            bit_len(n as nat) <= 64,
        decreases m,
    {
        assert(bit_len(m as nat) == 1 + bit_len((m / 2) as nat));
        m = m / 2;
        bits = bits + 1;
    }
    if bits <= 53 {
        n as u128
    } else {
        let p = pow2_exec(bits - 53);
        proof {
            lemma_bit_len_bound(n as nat);
            lemma_pow2n_adds(53, (bits - 53) as nat);
            lemma_pow2n_mono(bits as nat, 64);
            assert(53 + (bits - 53) as nat == bits as nat);
            let pn = p as int;
            let nn = n as int;
            let k = pow2n(53) as int;
            assert(nn < k * pn);
            assert(nn / pn < k) by (nonlinear_arith)
                requires
                    nn < k * pn,
                    pn > 0,
                    nn >= 0,
            ;
        }
        let q = round_div_exec(n as u128, p);
        proof {
            let pn = p as int;
            let k = pow2n(53) as int;
            assert(pow2n(53) == 0x20_0000_0000_0000) by {
                reveal_with_fuel(pow2n, 54);
            }
            assert(q <= k);
            assert(q * pn <= k * pn) by (nonlinear_arith)
                requires
                    q <= k,
                    pn > 0,
            ;
        }
        q * p
    }
}

/// A quotient lies in one binade only.
proof fn lemma_binade_unique(a: nat, b: nat, k1: nat, k2: nat)
    requires
        b > 0,
        in_binade(a, b, k1),
        in_binade(a, b, k2),
    ensures
        k1 == k2,
{
    if k1 < k2 {
        lemma_binade_order(a, b, k1, k2);
    } else if k2 < k1 {
        lemma_binade_order(a, b, k2, k1);
    }
}

proof fn lemma_binade_order(a: nat, b: nat, k1: nat, k2: nat)
    requires
        b > 0,
        k1 < k2,
    ensures
        !(in_binade(a, b, k1) && in_binade(a, b, k2)),
{
    lemma_pow2n_mono((k1 + 1) as nat, k2);
    lemma_pow2n_pos(52);
    assert(pow2n((k1 + 1) as nat) == 2 * pow2n(k1));
    let p1 = pow2n(k1);
    let p2 = pow2n(k2);
    let c52 = pow2n(52);
    let c53 = pow2n(53);
    assert(c53 == 2 * c52);
    let y = a * pow2n(200);
    assert(c52 * b * p2 >= c53 * b * p1) by (nonlinear_arith)
        requires
            p2 >= 2 * p1,
            c53 == 2 * c52,
            b > 0,
            c52 > 0,
    ;
}

/// Bounds `c * d <= n < 2 * c * d` with `n * x == d * y` put `y / x` in the
/// same range.
proof fn lemma_ratio_bounds(n: nat, d: nat, x: nat, y: nat, c: nat)
    requires
        d > 0,
        x > 0,
        c * d <= n,
        n < 2 * c * d,
        n * x == d * y,
    ensures
        c * x <= y,
        y < 2 * c * x,
{
    assert(c * x <= y) by (nonlinear_arith)
        requires
            d > 0,
            c * d <= n,
            n * x == d * y,
            x > 0,
    ;
    assert(y < 2 * c * x) by (nonlinear_arith)
        requires
            d > 0,
            x > 0,
            n < 2 * c * d,
            n * x == d * y,
    ;
}

proof fn lemma_pow2n_small()
    ensures
        pow2n(12) == 4096,
        pow2n(13) == 8192,
        pow2n(52) == 0x10_0000_0000_0000,
        pow2n(53) == 0x20_0000_0000_0000,
{
    reveal_with_fuel(pow2n, 54);
}

/// A quotient `y / x` below `c`, from `n / d` below `c` and `n * x == d * y`.
proof fn lemma_ratio_below(n: nat, d: nat, x: nat, y: nat, c: nat)
    requires
        d > 0,
        x > 0,
        n < c * d,
        n * x == d * y,
    ensures
        y < c * x,
{
    assert(y < c * x) by (nonlinear_arith)
        requires
            d > 0,
            x > 0,
            n < c * d,
            n * x == d * y,
    ;
}

/// For `a >= 1` and `b <= 2^64`, `a * 2^200 < 2^c * b * 2^k` needs
/// `c + 64 + k > 200`.
proof fn lemma_exponent_floor(a: nat, b: nat, c: nat, k: nat)
    requires
        a >= 1,
        b <= pow2n(64),
        c + 64 <= 200,
        a * pow2n(200) < pow2n(c) * b * pow2n(k),
    ensures
        k + c + 64 > 200,
{
    if k + c + 64 <= 200 {
        let r = (200 - (c + 64 + k)) as nat;
        lemma_pow2n_adds(c, 64);
        lemma_pow2n_adds(c + 64, k);
        lemma_pow2n_adds(c + 64 + k, r);
        assert(c + 64 + k + r == 200);
        lemma_pow2n_pos(r);
        lemma_pow2n_pos(c);
        lemma_pow2n_pos(k);
        let pc = pow2n(c);
        let p64 = pow2n(64);
        let pk = pow2n(k);
        let pr = pow2n(r);
        let p200 = pow2n(200);
        assert(p200 == pc * p64 * pk * pr);
        assert(a * p200 >= pc * b * pk) by (nonlinear_arith)
            requires
                a >= 1,
                b <= p64,
                p200 == pc * p64 * pk * pr,
                pc > 0,
                pk > 0,
                pr > 0,
        ;
    }
}

/// The tenths of `(a / b) * 100` computed in doubles, for the double values
/// `a` and `b` of two positive 64-bit counts (see `percent_tenths`).
fn percent_tenths_exec(a: u128, b: u128) -> (t: u128)
    requires
        0 < a <= 0x1_0000_0000_0000_0000,
        0 < b <= 0x1_0000_0000_0000_0000,
    ensures
        t == percent_tenths(a as nat, b as nat),
{
    proof {
        lemma_pow2n_small();
        lemma_pow2n_64();
    }
    let two52: u128 = 0x10_0000_0000_0000;
    let two53: u128 = 0x20_0000_0000_0000;
    let mut n: u128 = a;
    let mut d: u128 = b;
    let mut k: u32 = 200;
    assert(pow2n(0) == 1);
    assert(b * pow2n(0) == b) by (nonlinear_arith)
        requires
            pow2n(0) == 1,
    ;
    // Scale the divisor up while the quotient is 2^53 or more.
    while n >= two53 * d
        invariant
            n == a,
            0 < a <= 0x1_0000_0000_0000_0000,
            0 < b <= 0x1_0000_0000_0000_0000,
            two53 == 0x20_0000_0000_0000,
            0 < d <= 0x1_0000_0000_0000_0000,
            200 <= k <= 212,
            d == b * pow2n((k - 200) as nat),
            k > 200 ==> d <= 4096,
            pow2n(13) == 8192,
        decreases 0x1_0000_0000_0000_0000 - d,
    {
        let ghost e = (k - 200) as nat;
        assert(pow2n(e + 1) == 2 * pow2n(e));
        assert(2 * d == b * pow2n(e + 1)) by (nonlinear_arith)
            requires
                d == b * pow2n(e),
                pow2n(e + 1) == 2 * pow2n(e),
        ;
        d = d * 2;
        k = k + 1;
        proof {
            let e1 = (k - 200) as nat;
            assert(e1 == e + 1);
            assert(d == b * pow2n(e1));
            if e1 >= 13 {
                lemma_pow2n_mono(13, e1);
                assert(b * pow2n(e1) >= pow2n(e1)) by (nonlinear_arith)
                    requires
                        b >= 1,
                        pow2n(e1) >= 0,
                ;
                assert(false);
            }
        }
    }
    proof {
        let e = (k - 200) as nat;
        lemma_pow2n_adds(e, 200);
        assert(e + 200 == k as nat);
        let pe = pow2n(e);
        let p200 = pow2n(200);
        assert(n * b * pow2n(k as nat) == d * a * pow2n(200)) by (nonlinear_arith)
            requires
                n == a,
                d == b * pe,
                pow2n(k as nat) == pe * p200,
                p200 == pow2n(200),
        ;
    }
    // Scale the dividend up while the quotient is below 2^52.
    while n < two52 * d
        invariant
            0 < a <= 0x1_0000_0000_0000_0000,
            0 < b <= 0x1_0000_0000_0000_0000,
            two52 == 0x10_0000_0000_0000,
            two53 == 0x20_0000_0000_0000,
            pow2n(52) == 0x10_0000_0000_0000,
            pow2n(64) == 0x1_0000_0000_0000_0000,
            0 < d <= 0x1_0000_0000_0000_0000,
            0 < n,
            n < two53 * d,
            84 <= k <= 212,
            n * b * pow2n(k as nat) == d * a * pow2n(200),
        decreases k,
    {
        proof {
            let x = (b as nat) * pow2n(k as nat);
            let y = (a as nat) * pow2n(200);
            lemma_pow2n_pos(k as nat);
            assert(x > 0) by (nonlinear_arith)
                requires
                    b > 0,
                    pow2n(k as nat) > 0,
                    x == (b as nat) * pow2n(k as nat),
            ;
            assert(n * x == d * y) by (nonlinear_arith)
                requires
                    n * b * pow2n(k as nat) == d * a * pow2n(200),
                    x == b * pow2n(k as nat),
                    y == a * pow2n(200),
            ;
            lemma_ratio_below(n as nat, d as nat, x, y, pow2n(52));
            assert(a * pow2n(200) < pow2n(52) * b * pow2n(k as nat)) by (nonlinear_arith)
                requires
                    y < pow2n(52) * x,
                    x == b * pow2n(k as nat),
                    y == a * pow2n(200),
            ;
            lemma_exponent_floor(a as nat, b as nat, 52, k as nat);
            assert(pow2n(k as nat) == 2 * pow2n((k - 1) as nat));
            let pk1 = pow2n((k - 1) as nat);
            assert((2 * n) * b * pk1 == d * a * pow2n(200)) by (nonlinear_arith)
                requires
                    n * b * pow2n(k as nat) == d * a * pow2n(200),
                    pow2n(k as nat) == 2 * pk1,
            ;
        }
        n = n * 2;
        k = k - 1;
    }
    let ghost x = (b as nat) * pow2n(k as nat);
    let ghost y = (a as nat) * pow2n(200);
    proof {
        lemma_pow2n_pos(k as nat);
        assert(x > 0) by (nonlinear_arith)
            requires
                b > 0,
                pow2n(k as nat) > 0,
                x == (b as nat) * pow2n(k as nat),
        ;
        assert(n * x == d * y) by (nonlinear_arith)
            requires
                n * b * pow2n(k as nat) == d * a * pow2n(200),
                x == b * pow2n(k as nat),
                y == a * pow2n(200),
        ;
        lemma_ratio_bounds(n as nat, d as nat, x, y, pow2n(52));
        assert(in_binade(a as nat, b as nat, k as nat)) by (nonlinear_arith)
            requires
                pow2n(52) * x <= y,
                y < 2 * pow2n(52) * x,
                pow2n(53) == 2 * pow2n(52),
                x == b * pow2n(k as nat),
                y == a * pow2n(200),
        ;
        lemma_binade_unique(a as nat, b as nat, k as nat, binade(a as nat, b as nat));
        lemma_round_div_ratio(n as nat, d as nat, y, x);
        // The quotient is below 2^53.
        vstd::arithmetic::div_mod::lemma_fundamental_div_mod(n as int, d as int);
        vstd::arithmetic::div_mod::lemma_mod_bound(n as int, d as int);
        let q = n / d;
        assert(q < two53) by (nonlinear_arith)
            requires
                n == d * q + n % d,
                n % d >= 0,
                n < two53 * d,
                d > 0,
        ;
    }
    let m = round_div_exec(n, d);
    assert(m == quotient_significand(a as nat, b as nat));
    assert(m <= two53);
    let big = as_f64_exec((m * 100) as u64);
    if k >= 200 {
        let e = k - 200;
        let pe = pow2_exec(e);
        proof {
            lemma_pow2n_mono(e as nat, 12);
        }
        assert(big * 10 * pe <= 0x1_0000_0000_0000_0000 * 10 * 4096) by (nonlinear_arith)
            requires
                big <= 0x1_0000_0000_0000_0000,
                pe <= 4096,
        ;
        let t = big * 10 * pe;
        proof {
            lemma_pow2n_adds(e as nat, 200);
            assert(e as nat + 200 == k as nat);
            let p200 = pow2n(200);
            assert(t * p200 == (big * 10 * pow2n(k as nat)) * 1) by (nonlinear_arith)
                requires
                    t == big * 10 * pe,
                    pow2n(k as nat) == pe * p200,
            ;
            lemma_pow2n_pos(200);
            lemma_round_div_ratio(t as nat, 1, (big * 10 * pow2n(k as nat)) as nat, p200);
            assert(t as nat / 1 == t as nat);
            assert(t as nat % 1 == 0);
        }
        t
    } else {
        let r = 200 - k;
        let pr = pow2_exec(r);
        proof {
            lemma_pow2n_adds(k as nat, r as nat);
            assert(k as nat + r as nat == 200);
            let pk = pow2n(k as nat);
            assert((big * 10) * pow2n(200) == (big * 10 * pk) * pr) by (nonlinear_arith)
                requires
                    pow2n(200) == pk * pr,
            ;
            lemma_round_div_ratio((big * 10) as nat, pr as nat, (big * 10 * pk) as nat, pow2n(200));
        }
        round_div_exec(big * 10, pr)
    }
}

/// `format_bytes`: a byte count with a binary unit.
pub fn format_bytes(bytes: u64) -> (s: String)
    ensures
        s@ == bytes_text(bytes),
{
    let v = as_f64_exec(bytes);
    let gib = pow2_exec(30);
    let mib = pow2_exec(20);
    let kib = pow2_exec(10);
    let mut out: Vec<char>;
    if v >= gib {
        let t = round_div_exec(v * 10, gib);
        out = decimal_chars(t / 10);
        out.push('.');
        out.push(digit_of(t % 10));
        push_str(&mut out, " GiB");
    } else if v >= mib {
        let t = round_div_exec(v * 10, mib);
        out = decimal_chars(t / 10);
        out.push('.');
        out.push(digit_of(t % 10));
        push_str(&mut out, " MiB");
    } else if v >= kib {
        let t = round_div_exec(v * 10, kib);
        out = decimal_chars(t / 10);
        out.push('.');
        out.push(digit_of(t % 10));
        push_str(&mut out, " KiB");
    } else {
        out = decimal_chars(v);
        push_str(&mut out, " B");
    }
    string_of(out.as_slice())
}

/// A positive count stays positive as a double.
proof fn lemma_as_f64_pos(n: nat)
    requires
        n >= 1,
    ensures
        as_f64(n) >= 1,
{
    if bit_len(n) > 53 {
        let e = (bit_len(n) - 53) as nat;
        let p = pow2n(e);
        lemma_bit_len_bound(n);
        lemma_pow2n_mono(e, (bit_len(n) - 1) as nat);
        lemma_pow2n_pos(e);
        vstd::arithmetic::div_mod::lemma_fundamental_div_mod(n as int, p as int);
        vstd::arithmetic::div_mod::lemma_mod_bound(n as int, p as int);
        let q = n / p;
        assert(q >= 1) by (nonlinear_arith)
            requires
                n == p * q + n % p,
                n % p < p,
                n >= p,
                p > 0,
        ;
        assert(round_div(n, p) >= q);
        assert(round_div(n, p) * p >= 1) by (nonlinear_arith)
            requires
                round_div(n, p) >= 1,
                p >= 1,
        ;
    }
}

/// `format_percent`: a share as a percentage with one decimal, or `N/A`.
pub fn format_percent(value: Option<Percent>) -> (s: String)
    ensures
        s@ == percent_text(value),
{
    match value {
        None => string_of(chars_of("N/A").as_slice()),
        Some(p) => {
            if p.whole == 0 {
                if p.part == 0 {
                    string_of(chars_of("NaN%").as_slice())
                } else {
                    string_of(chars_of("inf%").as_slice())
                }
            } else if p.part == 0 {
                string_of(chars_of("0.0%").as_slice())
            } else {
                let a = as_f64_exec(p.part);
                let b = as_f64_exec(p.whole);
                proof {
                    lemma_as_f64_pos(p.part as nat);
                    lemma_as_f64_pos(p.whole as nat);
                }
                let t = percent_tenths_exec(a, b);
                let mut out = decimal_chars(t / 10);
                out.push('.');
                out.push(digit_of(t % 10));
                out.push('%');
                proof {
                    reveal_strlit("%");
                    assert(out@ =~= tenths_text(t as nat) + "%"@);
                }
                string_of(out.as_slice())
            }
        },
    }
}

/// `format_speed`: a speed in MT/s, or `N/A`.
pub fn format_speed(value: Option<u64>) -> (s: String)
    ensures
        s@ == speed_text(value),
{
    match value {
        Some(v) => {
            let mut out = decimal_chars(v as u128);
            push_str(&mut out, " MT/s");
            string_of(out.as_slice())
        },
        None => {
            let out = chars_of("N/A");
            string_of(out.as_slice())
        },
    }
}

/// The first `max_chars` characters of `value` (all of it when shorter).
pub fn truncate(value: &str, max_chars: usize) -> (s: String)
    ensures
        s@ == if value@.len() <= max_chars {
            value@
        } else {
            value@.take(max_chars as int)
        },
{
    let v = chars_of(value);
    if v.len() <= max_chars {
        string_of(v.as_slice())
    } else {
        let head = crate::text::slice_chars(v.as_slice(), 0, max_chars);
        assert(head@ == value@.take(max_chars as int));
        string_of(head.as_slice())
    }
}

} // verus!
