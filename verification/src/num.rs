//! Integer parsing as `str::parse` and `from_str_radix` do it: an optional sign,
//! then one or more digits of the radix, with no other characters and no
//! overflow.
use vstd::prelude::*;

verus! {

/// The value of `c` as a digit in `radix` (10 or 16), if it is one.
pub open spec fn digit_value(c: char, radix: nat) -> Option<nat> {
    let u = c as u32;
    if 0x30 <= u && u <= 0x39 && ((u - 0x30) as nat) < radix {
        Some((u - 0x30) as nat)
    } else if 0x61 <= u && u <= 0x7A && ((u - 0x61 + 10) as nat) < radix {
        Some((u - 0x61 + 10) as nat)
    } else if 0x41 <= u && u <= 0x5A && ((u - 0x41 + 10) as nat) < radix {
        Some((u - 0x41 + 10) as nat)
    } else {
        None
    }
}

/// Every character of `s` is a digit of `radix`.
pub open spec fn all_digits(s: Seq<char>, radix: nat) -> bool {
    forall|i: int| 0 <= i < s.len() ==> (#[trigger] digit_value(s[i], radix)) is Some
}

/// The number that the digits `s` write in `radix`, most significant first.
pub open spec fn digits_value(s: Seq<char>, radix: nat) -> nat
    decreases s.len(),
{
    if s.len() == 0 {
        0
    } else {
        digits_value(s.drop_last(), radix) * radix + match digit_value(s.last(), radix) {
            Some(d) => d,
            None => 0,
        }
    }
}

/// The digits after an optional leading `'+'`.
pub open spec fn unsigned_digits(s: Seq<char>) -> Seq<char> {
    if s.len() > 0 && s[0] == '+' {
        s.drop_first()
    } else {
        s
    }
}

/// `<uN>::from_str_radix(s, radix).ok()` for the unsigned type whose largest
/// value is `max`.
pub open spec fn parse_unsigned(s: Seq<char>, radix: nat, max: nat) -> Option<nat> {
    let d = unsigned_digits(s);
    if d.len() > 0 && all_digits(d, radix) && digits_value(d, radix) <= max {
        Some(digits_value(d, radix))
    } else {
        None
    }
}

/// `s.parse::<u64>().ok()`.
pub open spec fn parse_u64_dec(s: Seq<char>) -> Option<u64> {
    match parse_unsigned(s, 10, u64::MAX as nat) {
        Some(v) => Some(v as u64),
        None => None,
    }
}

/// `s.parse::<i32>().ok()`.
pub open spec fn parse_i32_dec(s: Seq<char>) -> Option<i32> {
    if s.len() > 0 && s[0] == '-' {
        let d = s.drop_first();
        if d.len() > 0 && all_digits(d, 10) && digits_value(d, 10) <= 0x8000_0000 {
            Some((0 - digits_value(d, 10)) as i32)
        } else {
            None
        }
    } else {
        match parse_unsigned(s, 10, 0x7FFF_FFFF) {
            Some(v) => Some(v as i32),
            None => None,
        }
    }
}

proof fn lemma_digits_value_push(s: Seq<char>, c: char, radix: nat)
    ensures
        digits_value(s.push(c), radix) == digits_value(s, radix) * radix + match digit_value(
            c,
            radix,
        ) {
            Some(d) => d,
            None => 0,
        },
{
    assert(s.push(c).drop_last() == s);
}

/// Extending a run of digits never makes its value smaller.
proof fn lemma_digits_value_grows(s: Seq<char>, i: int, j: int, radix: nat)
    requires
        0 <= i <= j <= s.len(),
        radix >= 1,
    ensures
        digits_value(s.take(i), radix) <= digits_value(s.take(j), radix),
    decreases j - i,
{
    if i < j {
        lemma_digits_value_grows(s, i, j - 1, radix);
        assert(s.take(j).drop_last() == s.take(j - 1));
        let v = digits_value(s.take(j - 1), radix);
        assert(v * radix >= v) by (nonlinear_arith)
            requires
                radix >= 1,
        ;
    }
}

/// One character's digit value in `radix` (10 or 16).
fn digit_of(c: char, radix: u32) -> (r: Option<u32>)
    requires
        radix == 10 || radix == 16,
    ensures
        match r {
            Some(d) => digit_value(c, radix as nat) == Some(d as nat) && d < radix,
            None => digit_value(c, radix as nat) is None,
        },
{
    let u = c as u32;
    if 0x30 <= u && u <= 0x39 && u - 0x30 < radix {
        Some(u - 0x30)
    } else if 0x61 <= u && u <= 0x7A && u - 0x61 + 10 < radix {
        Some(u - 0x61 + 10)
    } else if 0x41 <= u && u <= 0x5A && u - 0x41 + 10 < radix {
        Some(u - 0x41 + 10)
    } else {
        None
    }
}

/// `from_str_radix` for an unsigned type whose largest value is `max`.
pub fn parse_unsigned_chars(s: &[char], radix: u32, max: u64) -> (r: Option<u64>)
    requires
        radix == 10 || radix == 16,
    ensures
        match r {
            Some(v) => parse_unsigned(s@, radix as nat, max as nat) == Some(v as nat),
            None => parse_unsigned(s@, radix as nat, max as nat) is None,
        },
{
    let start: usize = if s.len() > 0 && s[0] == '+' {
        1
    } else {
        0
    };
    let ghost d = unsigned_digits(s@);
    assert(d == s@.skip(start as int));
    if start >= s.len() {
        return None;
    }
    let mut acc: u64 = 0;
    let mut i: usize = start;
    while i < s.len()
        invariant
            start <= i <= s.len(),
            d == s@.skip(start as int),
            d == unsigned_digits(s@),
            radix == 10 || radix == 16,
            all_digits(d.take(i - start), radix as nat),
            acc as nat == digits_value(d.take(i - start), radix as nat),
            acc <= max,
        decreases s.len() - i,
    {
        let ghost k = i - start;
        assert(d.take(k + 1) == d.take(k).push(d[k]));
        assert(d[k] == s@[i as int]);
        proof {
            lemma_digits_value_push(d.take(k), d[k], radix as nat);
        }
        match digit_of(s[i], radix) {
            None => {
                assert(digit_value(d[k], radix as nat) is None);
                assert(!all_digits(d, radix as nat));
                return None;
            },
            Some(dg) => {
                if dg as u64 > max || acc > (max - dg as u64) / radix as u64 {
                    proof {
                        let a = acc as int;
                        let r = radix as int;
                        if dg <= max {
                            let m = (max - dg) as int;
                            assert(a * r + dg > max) by (nonlinear_arith)
                                requires
                                    a > m / r,
                                    r > 0,
                                    m >= 0,
                                    m == max - dg,
                            ;
                        } else {
                            assert(a * r >= 0) by (nonlinear_arith)
                                requires
                                    a >= 0,
                                    r > 0,
                            ;
                        }
                        if all_digits(d, radix as nat) {
                            assert(d.take(d.len() as int) == d);
                            lemma_digits_value_grows(d, k + 1, d.len() as int, radix as nat);
                        }
                    }
                    return None;
                }
                proof {
                    let a = acc as int;
                    let r = radix as int;
                    let m = (max - dg) as int;
                    assert(a * r + dg <= max) by (nonlinear_arith)
                        requires
                            a <= m / r,
                            r > 0,
                            m >= 0,
                            m == max - dg,
                    ;
                }
                acc = acc * radix as u64 + dg as u64;
                assert(all_digits(d.take(k + 1), radix as nat)) by {
                    assert forall|j: int| 0 <= j < k + 1 implies (#[trigger] digit_value(
                        d.take(k + 1)[j],
                        radix as nat,
                    )) is Some by {
                        if j < k {
                            assert(d.take(k + 1)[j] == d.take(k)[j]);
                        }
                    }
                }
            },
        }
        i += 1;
    }
    assert(d.take(d.len() as int) == d);
    Some(acc)
}

/// `s.parse::<u64>().ok()`.
pub fn parse_u64_chars(s: &[char]) -> (r: Option<u64>)
    ensures
        r == parse_u64_dec(s@),
{
    parse_unsigned_chars(s, 10, u64::MAX)
}

/// `s.parse::<i32>().ok()`.
pub fn parse_i32_chars(s: &[char]) -> (r: Option<i32>)
    ensures
        r == parse_i32_dec(s@),
{
    if s.len() > 0 && s[0] == '-' {
        let rest = crate::text::slice_chars(s, 1, s.len());
        assert(rest@ == s@.drop_first());
        if rest.len() > 0 && rest[0] == '+' {
            // "-+1" is not a number: after the sign only digits may follow.
            assert(digit_value(rest@[0], 10) is None);
            return None;
        }
        assert(unsigned_digits(rest@) == rest@);
        match parse_unsigned_chars(rest.as_slice(), 10, 0x8000_0000) {
            Some(v) => Some((0 - v as i64) as i32),
            None => None,
        }
    } else {
        match parse_unsigned_chars(s, 10, 0x7FFF_FFFF) {
            Some(v) => Some(v as i32),
            None => None,
        }
    }
}

} // verus!
