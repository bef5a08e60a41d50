//! RFC 3339 UTC timestamps at second precision: the fixed 20-byte form
//! `YYYY-MM-DDTHH:MM:SSZ` used inside the canonical claim payload and in
//! audit records. Formatting and parsing are exact inverses over the
//! supported range (1970-01-01T00:00:00Z through 9999-12-31T23:59:59Z).

use vstd::prelude::*;
use vstd::arithmetic::div_mod::lemma_fundamental_div_mod;
use vstd::arithmetic::div_mod::lemma_fundamental_div_mod_converse;

verus! {

/// Largest supported timestamp: 9999-12-31T23:59:59Z as Unix seconds.
pub const MAX_UNIX_TS: i64 = 253402300799;

/// Days from 1970-01-01 up to (not including) 10000-01-01.
pub const MAX_UNIX_DAYS: i64 = 2932897;

pub open spec fn is_leap_year(y: int) -> bool {
    (y % 4 == 0 && y % 100 != 0) || y % 400 == 0
}

pub open spec fn days_in_year(y: int) -> int {
    if is_leap_year(y) {
        366
    } else {
        365
    }
}

pub open spec fn days_in_month(y: int, m: int) -> int {
    if m == 2 {
        if is_leap_year(y) {
            29
        } else {
            28
        }
    } else if m == 4 || m == 6 || m == 9 || m == 11 {
        30
    } else {
        31
    }
}

/// Days in year `y` before the first of month `m` (m may be 13, giving the
/// whole year).
pub open spec fn days_before_month(y: int, m: int) -> int {
    let base: int = if m == 1 {
        0
    } else if m == 2 {
        31
    } else if m == 3 {
        59
    } else if m == 4 {
        90
    } else if m == 5 {
        120
    } else if m == 6 {
        151
    } else if m == 7 {
        181
    } else if m == 8 {
        212
    } else if m == 9 {
        243
    } else if m == 10 {
        273
    } else if m == 11 {
        304
    } else if m == 12 {
        334
    } else {
        365
    };
    if m >= 3 && is_leap_year(y) {
        base + 1
    } else {
        base
    }
}

/// Days from 1970-01-01 up to the first of year `y`, in closed form
/// (Gregorian leap rule; the constant anchors the count at 1970).
pub open spec fn days_before_year(y: int) -> int {
    365 * (y - 1970) + (y - 1) / 4 - (y - 1) / 100 + (y - 1) / 400 - 477
}

pub open spec fn valid_civil(y: int, m: int, d: int) -> bool {
    &&& 1970 <= y <= 9999
    &&& 1 <= m <= 12
    &&& 1 <= d <= days_in_month(y, m)
}

/// Day number (days since 1970-01-01) of the civil date `y-m-d`.
pub open spec fn days_from_civil(y: int, m: int, d: int) -> int {
    days_before_year(y) + days_before_month(y, m) + d - 1
}

/// How a constant-divisor quotient moves when the dividend steps down by one.
proof fn lemma_div_step(n: int, k: int)
    requires
        n >= 1,
        k >= 1,
    ensures
        n / k - (n - 1) / k == if n % k == 0 {
            1int
        } else {
            0int
        },
{
    lemma_fundamental_div_mod(n, k);
    let q = n / k;
    let r = n % k;
    if r == 0 {
        assert((q - 1) * k + (k - 1) == k * q - 1) by (nonlinear_arith);
        lemma_fundamental_div_mod_converse(n - 1, k, q - 1, k - 1);
    } else {
        assert(q * k == k * q) by (nonlinear_arith);
        lemma_fundamental_div_mod_converse(n - 1, k, q, r - 1);
    }
}

/// Divisibility by 400 or 100 transfers down to the smaller factors.
proof fn lemma_leap_divisibility(y: int)
    ensures
        y % 400 == 0 ==> y % 100 == 0 && y % 4 == 0,
        y % 100 == 0 ==> y % 4 == 0,
{
    if y % 400 == 0 {
        lemma_fundamental_div_mod(y, 400);
        assert((4 * (y / 400)) * 100 == 400 * (y / 400)) by (nonlinear_arith);
        assert((100 * (y / 400)) * 4 == 400 * (y / 400)) by (nonlinear_arith);
        lemma_fundamental_div_mod_converse(y, 100, 4 * (y / 400), 0);
        lemma_fundamental_div_mod_converse(y, 4, 100 * (y / 400), 0);
    }
    if y % 100 == 0 {
        lemma_fundamental_div_mod(y, 100);
        assert((25 * (y / 100)) * 4 == 100 * (y / 100)) by (nonlinear_arith);
        lemma_fundamental_div_mod_converse(y, 4, 25 * (y / 100), 0);
    }
}

pub proof fn lemma_days_before_year_step(y: int)
    requires
        y >= 1970,
    ensures
        days_before_year(y + 1) == days_before_year(y) + days_in_year(y),
{
    lemma_div_step(y, 4);
    lemma_div_step(y, 100);
    lemma_div_step(y, 400);
    lemma_leap_divisibility(y);
}

pub proof fn lemma_days_before_year_mono(y1: int, y2: int)
    requires
        1970 <= y1 <= y2,
    ensures
        days_before_year(y1) <= days_before_year(y2),
        y1 < y2 ==> days_before_year(y1) + days_in_year(y1) <= days_before_year(y2),
    decreases y2 - y1,
{
    if y1 < y2 {
        lemma_days_before_year_step(y1);
        lemma_days_before_year_mono(y1 + 1, y2);
    }
}

pub proof fn lemma_days_before_month_step(y: int, m: int)
    requires
        1 <= m <= 12,
    ensures
        days_before_month(y, m + 1) == days_before_month(y, m) + days_in_month(y, m),
{
}

pub proof fn lemma_days_before_month_mono(y: int, m1: int, m2: int)
    requires
        1 <= m1 <= m2 <= 13,
    ensures
        days_before_month(y, m1) <= days_before_month(y, m2),
    decreases m2 - m1,
{
    if m1 < m2 {
        lemma_days_before_month_step(y, m1);
        lemma_days_before_month_mono(y, m1 + 1, m2);
    }
}

/// A valid date lands inside its own year's day span.
pub proof fn lemma_civil_in_year(y: int, m: int, d: int)
    requires
        valid_civil(y, m, d),
    ensures
        days_before_year(y) <= days_from_civil(y, m, d),
        days_from_civil(y, m, d) < days_before_year(y) + days_in_year(y),
{
    lemma_days_before_month_step(y, m);
    lemma_days_before_month_mono(y, m + 1, 13);
    assert(days_before_month(y, 13) == days_in_year(y));
}

/// Distinct valid dates have distinct day numbers.
pub proof fn lemma_civil_injective(y1: int, m1: int, d1: int, y2: int, m2: int, d2: int)
    requires
        valid_civil(y1, m1, d1),
        valid_civil(y2, m2, d2),
        days_from_civil(y1, m1, d1) == days_from_civil(y2, m2, d2),
    ensures
        y1 == y2 && m1 == m2 && d1 == d2,
{
    lemma_civil_in_year(y1, m1, d1);
    lemma_civil_in_year(y2, m2, d2);
    if y1 < y2 {
        lemma_days_before_year_mono(y1, y2);
    }
    if y2 < y1 {
        lemma_days_before_year_mono(y2, y1);
    }
    if m1 < m2 {
        lemma_days_before_month_step(y1, m1);
        lemma_days_before_month_mono(y1, m1 + 1, m2);
    }
    if m2 < m1 {
        lemma_days_before_month_step(y1, m2);
        lemma_days_before_month_mono(y1, m2 + 1, m1);
    }
}

/// Every day number in range is the day number of some valid date.
pub proof fn lemma_civil_exists(days: int)
    requires
        0 <= days < MAX_UNIX_DAYS,
    ensures
        exists|c: (int, int, int)|
            valid_civil(c.0, c.1, c.2) && days_from_civil(c.0, c.1, c.2) == days,
    decreases days,
{
    if days == 0 {
        let w: (int, int, int) = (1970, 1, 1);
        assert(valid_civil(w.0, w.1, w.2) && days_from_civil(w.0, w.1, w.2) == days);
    } else {
        lemma_civil_exists(days - 1);
        let c = choose|c: (int, int, int)|
            valid_civil(c.0, c.1, c.2) && days_from_civil(c.0, c.1, c.2) == days - 1;
        let y = c.0;
        let m = c.1;
        let d = c.2;
        if d < days_in_month(y, m) {
            let w: (int, int, int) = (y, m, d + 1);
            assert(valid_civil(w.0, w.1, w.2) && days_from_civil(w.0, w.1, w.2) == days);
        } else if m < 12 {
            lemma_days_before_month_step(y, m);
            let w: (int, int, int) = (y, m + 1, 1);
            assert(valid_civil(w.0, w.1, w.2) && days_from_civil(w.0, w.1, w.2) == days);
        } else {
            lemma_days_before_month_step(y, 12);
            lemma_days_before_year_step(y);
            assert(days_before_month(y, 13) == days_in_year(y));
            if y + 1 > 9999 {
                lemma_days_before_year_mono(y + 1, 10000);
                assert(days_before_year(10000) == MAX_UNIX_DAYS);
                assert(false);
            }
            let w: (int, int, int) = (y + 1, 1, 1);
            assert(valid_civil(w.0, w.1, w.2) && days_from_civil(w.0, w.1, w.2) == days);
        }
    }
}

/// The civil date of a day number in range (unique by `lemma_civil_injective`).
pub open spec fn civil_of_days(days: int) -> (int, int, int) {
    choose|c: (int, int, int)| valid_civil(c.0, c.1, c.2) && days_from_civil(c.0, c.1, c.2) == days
}

pub proof fn lemma_civil_of_days(days: int)
    requires
        0 <= days < MAX_UNIX_DAYS,
    ensures
        valid_civil(civil_of_days(days).0, civil_of_days(days).1, civil_of_days(days).2),
        days_from_civil(civil_of_days(days).0, civil_of_days(days).1, civil_of_days(days).2)
            == days,
{
    lemma_civil_exists(days);
}

/// The ASCII digit byte for `d` (0 through 9).
pub open spec fn digit(d: int) -> u8 {
    (48 + d) as u8
}

pub open spec fn dec2(n: int) -> Seq<u8> {
    seq![digit(n / 10), digit(n % 10)]
}

pub open spec fn dec4(n: int) -> Seq<u8> {
    seq![digit(n / 1000), digit((n / 100) % 10), digit((n / 10) % 10), digit(n % 10)]
}

/// Recover a 4-digit number's digits from its value.
proof fn lemma_dec4_digits(a: int, b: int, c: int, d: int)
    requires
        0 <= a <= 9,
        0 <= b <= 9,
        0 <= c <= 9,
        0 <= d <= 9,
    ensures
        (1000 * a + 100 * b + 10 * c + d) / 1000 == a,
        ((1000 * a + 100 * b + 10 * c + d) / 100) % 10 == b,
        ((1000 * a + 100 * b + 10 * c + d) / 10) % 10 == c,
        (1000 * a + 100 * b + 10 * c + d) % 10 == d,
{
    let n = 1000 * a + 100 * b + 10 * c + d;
    lemma_fundamental_div_mod_converse(n, 1000, a, 100 * b + 10 * c + d);
    lemma_fundamental_div_mod_converse(n, 100, 10 * a + b, 10 * c + d);
    lemma_fundamental_div_mod_converse(n, 10, 100 * a + 10 * b + c, d);
    lemma_fundamental_div_mod_converse(10 * a + b, 10, a, b);
    lemma_fundamental_div_mod_converse(100 * a + 10 * b + c, 10, 10 * a + b, c);
}

/// Recover a 2-digit number's digits from its value.
proof fn lemma_dec2_digits(a: int, b: int)
    requires
        0 <= a <= 9,
        0 <= b <= 9,
    ensures
        (10 * a + b) / 10 == a,
        (10 * a + b) % 10 == b,
{
    lemma_fundamental_div_mod_converse(10 * a + b, 10, a, b);
}

/// The canonical 20-byte RFC 3339 UTC rendering of `t` Unix seconds.
pub open spec fn rfc3339_bytes(t: int) -> Seq<u8> {
    let days = t / 86400;
    let rem = t % 86400;
    let c = civil_of_days(days);
    dec4(c.0) + seq![45u8] + dec2(c.1) + seq![45u8] + dec2(c.2) + seq![84u8] + dec2(rem / 3600)
        + seq![58u8] + dec2((rem % 3600) / 60) + seq![58u8] + dec2(rem % 60) + seq![90u8]
}

/// The fields readable from `rfc3339_bytes(t)`: every digit position holds a
/// digit byte, separators are fixed, the encoded fields are in range, and they
/// determine `t`.
#[verifier::rlimit(100)]
proof fn lemma_rfc3339_fields(t: int)
    requires
        0 <= t <= MAX_UNIX_TS,
    ensures
        ({
            let days = t / 86400;
            let rem = t % 86400;
            let c = civil_of_days(days);
            let b = rfc3339_bytes(t);
            &&& valid_civil(c.0, c.1, c.2)
            &&& days_from_civil(c.0, c.1, c.2) == days
            &&& 0 <= rem < 86400
            &&& 0 <= days < MAX_UNIX_DAYS
            &&& b.len() == 20
            &&& b[4] == 45 && b[7] == 45 && b[10] == 84 && b[13] == 58 && b[16] == 58 && b[19]
                == 90
            &&& forall|i: int|
                (0 <= i < 20 && i != 4 && i != 7 && i != 10 && i != 13 && i != 16 && i != 19)
                    ==> 48 <= #[trigger] b[i] <= 57
            &&& c.0 == 1000 * (b[0] - 48) + 100 * (b[1] - 48) + 10 * (b[2] - 48) + (b[3] - 48)
            &&& c.1 == 10 * (b[5] - 48) + (b[6] - 48)
            &&& c.2 == 10 * (b[8] - 48) + (b[9] - 48)
            &&& 0 <= rem / 3600 <= 23 && rem / 3600 == 10 * (b[11] - 48) + (b[12] - 48)
            &&& 0 <= (rem % 3600) / 60 <= 59 && (rem % 3600) / 60 == 10 * (b[14] - 48) + (b[15]
                - 48)
            &&& 0 <= rem % 60 <= 59 && rem % 60 == 10 * (b[17] - 48) + (b[18] - 48)
            &&& t == days_from_civil(c.0, c.1, c.2) * 86400 + (rem / 3600) * 3600 + ((rem % 3600)
                / 60) * 60 + rem % 60
        }),
{
    let days = t / 86400;
    let rem = t % 86400;
    lemma_fundamental_div_mod(t, 86400);
    assert(MAX_UNIX_TS == MAX_UNIX_DAYS * 86400 - 1);
    lemma_civil_of_days(days);
    let c = civil_of_days(days);
    let b = rfc3339_bytes(t);
    let h = rem / 3600;
    let r1 = rem % 3600;
    lemma_fundamental_div_mod(rem, 3600);
    let mi = r1 / 60;
    let s = r1 % 60;
    lemma_fundamental_div_mod(r1, 60);
    lemma_fundamental_div_mod_converse(rem, 60, 60 * h + mi, s);
    lemma_dec4_digits(c.0 / 1000, (c.0 / 100) % 10, (c.0 / 10) % 10, c.0 % 10);
    assert(c.0 == 1000 * (c.0 / 1000) + 100 * ((c.0 / 100) % 10) + 10 * ((c.0 / 10) % 10) + c.0
        % 10) by {
        lemma_fundamental_div_mod(c.0, 1000);
        lemma_fundamental_div_mod(c.0, 100);
        lemma_fundamental_div_mod(c.0, 10);
        lemma_fundamental_div_mod(c.0 / 10, 10);
        lemma_fundamental_div_mod(c.0 / 100, 10);
        lemma_fundamental_div_mod_converse(c.0 / 10, 10, c.0 / 100, (c.0 / 10) % 10);
        lemma_fundamental_div_mod_converse(c.0 / 100, 10, c.0 / 1000, (c.0 / 100) % 10);
    }
    assert(c.1 == 10 * (c.1 / 10) + c.1 % 10 && 0 <= c.1 % 10 <= 9) by {
        lemma_fundamental_div_mod(c.1, 10);
    }
    assert(c.2 == 10 * (c.2 / 10) + c.2 % 10 && 0 <= c.2 % 10 <= 9) by {
        lemma_fundamental_div_mod(c.2, 10);
    }
    assert(h == 10 * (h / 10) + h % 10 && 0 <= h % 10 <= 9) by {
        lemma_fundamental_div_mod(h, 10);
    }
    assert(mi == 10 * (mi / 10) + mi % 10 && 0 <= mi % 10 <= 9) by {
        lemma_fundamental_div_mod(mi, 10);
    }
    assert(s == 10 * (s / 10) + s % 10 && 0 <= s % 10 <= 9) by {
        lemma_fundamental_div_mod(s, 10);
    }
}

/// No two timestamps in range share a rendering.
proof fn lemma_rfc3339_unique(t: int)
    requires
        0 <= t <= MAX_UNIX_TS,
    ensures
        forall|t2: int|
            0 <= t2 <= MAX_UNIX_TS && rfc3339_bytes(t2) == rfc3339_bytes(t) ==> t2 == t,
{
    assert forall|t2: int|
        0 <= t2 <= MAX_UNIX_TS && rfc3339_bytes(t2) == rfc3339_bytes(t) implies t2 == t by {
        lemma_rfc3339_fields(t);
        lemma_rfc3339_fields(t2);
        let c = civil_of_days(t / 86400);
        let c2 = civil_of_days(t2 / 86400);
        lemma_civil_injective(c.0, c.1, c.2, c2.0, c2.1, c2.2);
    }
}

fn days_in_month_x(y: i64, m: i64) -> (r: i64)
    requires
        1970 <= y <= 10000,
        1 <= m <= 12,
    ensures
        r == days_in_month(y as int, m as int),
{
    if m == 2 {
        if (y % 4 == 0 && y % 100 != 0) || y % 400 == 0 {
            29
        } else {
            28
        }
    } else if m == 4 || m == 6 || m == 9 || m == 11 {
        30
    } else {
        31
    }
}

fn days_in_year_x(y: i64) -> (r: i64)
    requires
        1970 <= y <= 10000,
    ensures
        r == days_in_year(y as int),
{
    if (y % 4 == 0 && y % 100 != 0) || y % 400 == 0 {
        366
    } else {
        365
    }
}

fn days_before_year_x(y: i64) -> (r: i64)
    requires
        1970 <= y <= 10000,
    ensures
        r == days_before_year(y as int),
{
    365 * (y - 1970) + (y - 1) / 4 - (y - 1) / 100 + (y - 1) / 400 - 477
}

fn days_before_month_x(y: i64, m: i64) -> (r: i64)
    requires
        1970 <= y <= 10000,
        1 <= m <= 12,
    ensures
        r == days_before_month(y as int, m as int),
{
    let base: i64 = if m == 1 {
        0
    } else if m == 2 {
        31
    } else if m == 3 {
        59
    } else if m == 4 {
        90
    } else if m == 5 {
        120
    } else if m == 6 {
        151
    } else if m == 7 {
        181
    } else if m == 8 {
        212
    } else if m == 9 {
        243
    } else if m == 10 {
        273
    } else if m == 11 {
        304
    } else {
        334
    };
    if m >= 3 && ((y % 4 == 0 && y % 100 != 0) || y % 400 == 0) {
        base + 1
    } else {
        base
    }
}

/// The unique valid civil date with this day number.
fn civil_from_days(days: i64) -> (r: (i64, i64, i64))
    requires
        0 <= days < MAX_UNIX_DAYS,
    ensures
        valid_civil(r.0 as int, r.1 as int, r.2 as int),
        days_from_civil(r.0 as int, r.1 as int, r.2 as int) == days,
{
    let mut y: i64 = 1970;
    let mut d: i64 = days;
    proof {
        assert(days_before_year(1970) == 0);
    }
    loop
        invariant
            1970 <= y <= 9999,
            0 <= d,
            days_before_year(y as int) + d == days,
            days < MAX_UNIX_DAYS,
        ensures
            1970 <= y <= 9999,
            0 <= d < days_in_year(y as int),
            days_before_year(y as int) + d == days,
        decreases d,
    {
        let len = days_in_year_x(y);
        if d < len {
            break ;
        }
        proof {
            lemma_days_before_year_step(y as int);
            if y + 1 > 9999 {
                lemma_days_before_year_mono(y as int + 1, 10000);
                assert(days_before_year(10000) == MAX_UNIX_DAYS);
                assert(false);
            }
        }
        d = d - len;
        y = y + 1;
    }
    let ghost d0 = d as int;
    let mut m: i64 = 1;
    loop
        invariant
            1 <= m <= 12,
            0 <= d,
            1970 <= y <= 9999,
            d0 < days_in_year(y as int),
            days_before_year(y as int) + d0 == days,
            days_before_month(y as int, m as int) + d == d0,
        ensures
            1 <= m <= 12,
            1970 <= y <= 9999,
            0 <= d < days_in_month(y as int, m as int),
            days_before_year(y as int) + days_before_month(y as int, m as int) + d == days,
        decreases 12 - m,
    {
        let len = days_in_month_x(y, m);
        if d < len {
            break ;
        }
        proof {
            lemma_days_before_month_step(y as int, m as int);
            if m + 1 > 12 {
                assert(days_before_month(y as int, 13) == days_in_year(y as int));
                assert(false);
            }
            lemma_days_before_month_mono(y as int, m as int + 1, 13);
        }
        d = d - len;
        m = m + 1;
    }
    (y, m, d + 1)
}

fn push_dec2(v: &mut Vec<u8>, n: i64)
    requires
        0 <= n <= 99,
    ensures
        final(v)@ == old(v)@ + dec2(n as int),
{
    v.push((48 + n / 10) as u8);
    v.push((48 + n % 10) as u8);
    assert(v@ =~= old(v)@ + dec2(n as int));
}

fn push_dec4(v: &mut Vec<u8>, n: i64)
    requires
        0 <= n <= 9999,
    ensures
        final(v)@ == old(v)@ + dec4(n as int),
{
    v.push((48 + n / 1000) as u8);
    v.push((48 + (n / 100) % 10) as u8);
    v.push((48 + (n / 10) % 10) as u8);
    v.push((48 + n % 10) as u8);
    assert(v@ =~= old(v)@ + dec4(n as int));
}

/// Render `t` in the canonical RFC 3339 UTC form.
pub fn format_rfc3339(t: i64) -> (r: Vec<u8>)
    requires
        0 <= t <= MAX_UNIX_TS,
    ensures
        r@ == rfc3339_bytes(t as int),
        r@.len() == 20,
{
    let days = t / 86400;
    let rem = t % 86400;
    proof {
        assert(MAX_UNIX_TS == MAX_UNIX_DAYS * 86400 - 1);
        lemma_fundamental_div_mod(t as int, 86400);
    }
    let (y, m, d) = civil_from_days(days);
    proof {
        lemma_civil_of_days(days as int);
        let c = civil_of_days(days as int);
        lemma_civil_injective(c.0, c.1, c.2, y as int, m as int, d as int);
    }
    let mut out: Vec<u8> = Vec::new();
    push_dec4(&mut out, y);
    out.push(45);
    push_dec2(&mut out, m);
    out.push(45);
    push_dec2(&mut out, d);
    out.push(84);
    push_dec2(&mut out, rem / 3600);
    out.push(58);
    push_dec2(&mut out, (rem % 3600) / 60);
    out.push(58);
    push_dec2(&mut out, rem % 60);
    out.push(90);
    proof {
        assert(out@ =~= rfc3339_bytes(t as int));
    }
    out
}

/// Read one ASCII digit.
fn read_digit(b: u8) -> (r: Option<i64>)
    ensures
        r is Some ==> 48 <= b <= 57 && r.unwrap() == b - 48,
        r is None ==> !(48 <= b <= 57),
{
    if 48 <= b && b <= 57 {
        Some((b - 48) as i64)
    } else {
        None
    }
}

/// Parse exactly the canonical 20-byte RFC 3339 UTC form. A byte sequence is
/// accepted if and only if it is `rfc3339_bytes(t)` for a `t` in range, and
/// then yields that `t`.
#[verifier::rlimit(100)]
pub fn parse_rfc3339(b: &[u8]) -> (r: Option<i64>)
    ensures
        r is Some ==> 0 <= r.unwrap() <= MAX_UNIX_TS && b@ == rfc3339_bytes(r.unwrap() as int),
        forall|t: int| 0 <= t <= MAX_UNIX_TS && b@ == rfc3339_bytes(t) ==> r == Some(t as i64),
{
    if b.len() != 20 {
        proof {
            assert forall|t: int|
                0 <= t <= MAX_UNIX_TS && b@ == rfc3339_bytes(t) implies false by {
                lemma_rfc3339_fields(t);
            }
        }
        return None;
    }
    let d0 = read_digit(b[0]);
    let d1 = read_digit(b[1]);
    let d2 = read_digit(b[2]);
    let d3 = read_digit(b[3]);
    let d5 = read_digit(b[5]);
    let d6 = read_digit(b[6]);
    let d8 = read_digit(b[8]);
    let d9 = read_digit(b[9]);
    let d11 = read_digit(b[11]);
    let d12 = read_digit(b[12]);
    let d14 = read_digit(b[14]);
    let d15 = read_digit(b[15]);
    let d17 = read_digit(b[17]);
    let d18 = read_digit(b[18]);
    let seps_ok = b[4] == 45 && b[7] == 45 && b[10] == 84 && b[13] == 58 && b[16] == 58 && b[19]
        == 90;
    if !(seps_ok && d0.is_some() && d1.is_some() && d2.is_some() && d3.is_some() && d5.is_some()
        && d6.is_some() && d8.is_some() && d9.is_some() && d11.is_some() && d12.is_some()
        && d14.is_some() && d15.is_some() && d17.is_some() && d18.is_some()) {
        proof {
            assert forall|t: int|
                0 <= t <= MAX_UNIX_TS && b@ == rfc3339_bytes(t) implies false by {
                lemma_rfc3339_fields(t);
            }
        }
        return None;
    }
    let y = 1000 * d0.unwrap() + 100 * d1.unwrap() + 10 * d2.unwrap() + d3.unwrap();
    let m = 10 * d5.unwrap() + d6.unwrap();
    let d = 10 * d8.unwrap() + d9.unwrap();
    let h = 10 * d11.unwrap() + d12.unwrap();
    let mi = 10 * d14.unwrap() + d15.unwrap();
    let s = 10 * d17.unwrap() + d18.unwrap();
    if !(1970 <= y && y <= 9999 && 1 <= m && m <= 12 && 1 <= d && h <= 23 && mi <= 59 && s <= 59) {
        proof {
            assert forall|t: int|
                0 <= t <= MAX_UNIX_TS && b@ == rfc3339_bytes(t) implies false by {
                lemma_rfc3339_fields(t);
            }
        }
        return None;
    }
    if d > days_in_month_x(y, m) {
        proof {
            assert forall|t: int|
                0 <= t <= MAX_UNIX_TS && b@ == rfc3339_bytes(t) implies false by {
                lemma_rfc3339_fields(t);
                let c = civil_of_days(t / 86400);
            }
        }
        return None;
    }
    proof {
        lemma_civil_in_year(y as int, m as int, d as int);
        lemma_days_before_year_mono(y as int + 1, 10000);
        assert(days_before_year(10000) == MAX_UNIX_DAYS);
    }
    let days = days_before_year_x(y) + days_before_month_x(y, m) + d - 1;
    let rem = 3600 * h + 60 * mi + s;
    let t = days * 86400 + rem;
    proof {
        assert(0 <= days < MAX_UNIX_DAYS);
        assert(MAX_UNIX_TS == MAX_UNIX_DAYS * 86400 - 1);
        lemma_fundamental_div_mod_converse(t as int, 86400, days as int, rem as int);
        lemma_civil_of_days(days as int);
        let c = civil_of_days(days as int);
        lemma_civil_injective(c.0, c.1, c.2, y as int, m as int, d as int);
        lemma_fundamental_div_mod_converse(rem as int, 3600, h as int, (60 * mi + s) as int);
        lemma_fundamental_div_mod_converse((60 * mi + s) as int, 60, mi as int, s as int);
        lemma_fundamental_div_mod_converse(rem as int, 60, (60 * h + mi) as int, s as int);
        lemma_dec4_digits(d0.unwrap() as int, d1.unwrap() as int, d2.unwrap() as int,
            d3.unwrap() as int);
        lemma_dec2_digits(d5.unwrap() as int, d6.unwrap() as int);
        lemma_dec2_digits(d8.unwrap() as int, d9.unwrap() as int);
        lemma_dec2_digits(d11.unwrap() as int, d12.unwrap() as int);
        lemma_dec2_digits(d14.unwrap() as int, d15.unwrap() as int);
        lemma_dec2_digits(d17.unwrap() as int, d18.unwrap() as int);
        assert(b@ =~= rfc3339_bytes(t as int));
        lemma_rfc3339_unique(t as int);
    }
    Some(t)
}

/// Every byte of a rendering is ASCII.
pub proof fn lemma_rfc3339_low(t: int)
    requires
        0 <= t <= MAX_UNIX_TS,
    ensures
        forall|i: int| 0 <= i < rfc3339_bytes(t).len() ==> #[trigger] rfc3339_bytes(t)[i] < 128,
{
    lemma_rfc3339_fields(t);
    assert forall|i: int|
        0 <= i < rfc3339_bytes(t).len() implies #[trigger] rfc3339_bytes(t)[i] < 128 by {
        let b = rfc3339_bytes(t);
        if i == 4 || i == 7 || i == 10 || i == 13 || i == 16 || i == 19 {
        } else {
            assert(48 <= b[i] <= 57);
        }
    }
}

} // verus!
