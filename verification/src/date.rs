//! The calendar date an index build is stamped with.

use vstd::prelude::*;
use crate::text::{decimal, decimal_spec, push_chars, string_of};

verus! {

/// Whether `y` is a leap year of the Gregorian calendar.
pub open spec fn is_leap(y: int) -> bool {
    (y % 4 == 0 && y % 100 != 0) || y % 400 == 0
}

/// The days in year `y`.
pub open spec fn year_len(y: int) -> int {
    if is_leap(y) {
        366
    } else {
        365
    }
}

/// The days in month `m` (1 to 12) of year `y`.
pub open spec fn month_len(y: int, m: int) -> int {
    if m == 2 {
        if is_leap(y) {
            29
        } else {
            28
        }
    } else if m == 4 || m == 6 || m == 9 || m == 11 {
        30
    } else {
        31
    }
}

/// Days from 1970-01-01 to the first of January of year `y`.
pub open spec fn days_to_year(y: int) -> int
    decreases y - 1970,
{
    if y <= 1970 {
        0
    } else {
        days_to_year(y - 1) + year_len(y - 1)
    }
}

/// Days from the first of January of year `y` to the first of month `m`.
pub open spec fn days_to_month(y: int, m: int) -> int
    decreases m,
{
    if m <= 1 {
        0
    } else {
        days_to_month(y, m - 1) + month_len(y, m - 1)
    }
}

/// A real date on or after 1970-01-01.
pub open spec fn valid_date(y: int, m: int, d: int) -> bool {
    y >= 1970 && 1 <= m <= 12 && 1 <= d <= month_len(y, m)
}

/// How many days after 1970-01-01 the date `y`-`m`-`d` falls.
pub open spec fn days_since_epoch(y: int, m: int, d: int) -> int {
    days_to_year(y) + days_to_month(y, m) + d - 1
}

proof fn lemma_months_fill_the_year(y: int)
    ensures
        days_to_month(y, 13) == year_len(y),
        forall|m: int| 1 <= m <= 12 ==> #[trigger] days_to_month(y, m + 1) == days_to_month(y, m)
            + month_len(y, m),
{
    reveal_with_fuel(days_to_month, 13);
}

proof fn lemma_days_to_month_mono(y: int, a: int, b: int)
    requires
        1 <= a <= b,
    ensures
        days_to_month(y, a) + (b - a) * 28 <= days_to_month(y, b),
    decreases b - a,
{
    if a < b {
        lemma_days_to_month_mono(y, a, b - 1);
    }
}

proof fn lemma_days_to_year_mono(a: int, b: int)
    requires
        1970 <= a <= b,
    ensures
        days_to_year(a) + (b - a) * 365 <= days_to_year(b),
    decreases b - a,
{
    if a < b {
        lemma_days_to_year_mono(a, b - 1);
    }
}

/// Within year `y`, the dates of month `m` start at `days_to_month(y, m)`
/// and end before the next month does.
proof fn lemma_in_month(y: int, m: int, d: int)
    requires
        valid_date(y, m, d),
    ensures
        days_to_month(y, m) <= days_to_month(y, m) + d - 1 < days_to_month(y, m + 1),
        days_to_month(y, m + 1) <= year_len(y),
{
    lemma_months_fill_the_year(y);
    lemma_days_to_month_mono(y, m + 1, 13);
}

/// No two dates fall on the same day: each day after the epoch is one date.
pub proof fn each_day_is_one_date(y1: int, m1: int, d1: int, y2: int, m2: int, d2: int)
    requires
        valid_date(y1, m1, d1),
        valid_date(y2, m2, d2),
        days_since_epoch(y1, m1, d1) == days_since_epoch(y2, m2, d2),
    ensures
        y1 == y2 && m1 == m2 && d1 == d2,
{
    lemma_in_month(y1, m1, d1);
    lemma_in_month(y2, m2, d2);
    if y1 < y2 {
        lemma_days_to_year_mono(y1 + 1, y2);
        lemma_days_to_month_mono(y2, 1, m2);
        assert(false);
    } else if y2 < y1 {
        lemma_days_to_year_mono(y2 + 1, y1);
        lemma_days_to_month_mono(y1, 1, m1);
        assert(false);
    }
    if m1 < m2 {
        lemma_days_to_month_mono(y1, m1 + 1, m2);
        assert(false);
    } else if m2 < m1 {
        lemma_days_to_month_mono(y1, m2 + 1, m1);
        assert(false);
    }
}

/// Leap days in the years up to and including `x`, counted from year 0.
spec fn leaps_through(x: int) -> int {
    x / 4 - x / 100 + x / 400
}

proof fn lemma_leaps_step(y: int)
    requires
        y >= 1970,
    ensures
        leaps_through(y) == leaps_through(y - 1) + if is_leap(y) {
            1int
        } else {
            0int
        },
{
    assert(y / 4 == (y - 1) / 4 + if y % 4 == 0 {
        1int
    } else {
        0int
    });
    assert(y / 100 == (y - 1) / 100 + if y % 100 == 0 {
        1int
    } else {
        0int
    });
    assert(y / 400 == (y - 1) / 400 + if y % 400 == 0 {
        1int
    } else {
        0int
    });
    assert(y % 400 == 0 ==> y % 100 == 0 && y % 4 == 0);
    assert(y % 100 == 0 ==> y % 4 == 0);
}

/// Every year is 365 days, plus one for each leap year since the epoch.
proof fn lemma_days_to_year_closed(y: int)
    requires
        y >= 1970,
    ensures
        days_to_year(y) == 365 * (y - 1970) + leaps_through(y - 1) - leaps_through(1969),
    decreases y - 1970,
{
    if y > 1970 {
        lemma_days_to_year_closed(y - 1);
        lemma_leaps_step(y - 1);
    }
}

/// Four hundred years are 146097 days, wherever they start.
proof fn lemma_whole_eras(q: int)
    requires
        q >= 0,
    ensures
        days_to_year(1970 + 400 * q) == 146097 * q,
{
    lemma_days_to_year_closed(1970 + 400 * q);
    let x = 1969 + 400 * q;
    assert(x / 4 == 492int + 100 * q) by (nonlinear_arith)
        requires
            x == 1969 + 400 * q,
            q >= 0,
    ;
    assert(x / 100 == 19int + 4 * q) by (nonlinear_arith)
        requires
            x == 1969 + 400 * q,
            q >= 0,
    ;
    assert(x / 400 == 4int + q) by (nonlinear_arith)
        requires
            x == 1969 + 400 * q,
            q >= 0,
    ;
}

fn leap(y: u64) -> (r: bool)
    ensures
        r == is_leap(y as int),
{
    (y % 4 == 0 && y % 100 != 0) || y % 400 == 0
}

/// The date `days` days after 1970-01-01: the one real date that many days
/// after the epoch.
pub fn civil_from_days(days: u64) -> (r: (u64, u32, u32))
    requires
        days <= 1_000_000_000_000,
    ensures
        valid_date(r.0 as int, r.1 as int, r.2 as int),
        days_since_epoch(r.0 as int, r.1 as int, r.2 as int) == days,
{
    let eras: u64 = days / 146097;
    proof {
        lemma_whole_eras(eras as int);
        assert(eras * 146097 <= days) by (nonlinear_arith)
            requires
                eras == days / 146097,
        ;
        assert(days - eras * 146097 < 146097) by (nonlinear_arith)
            requires
                eras == days / 146097,
        ;
    }
    let mut y: u64 = 1970 + 400 * eras;
    let mut rest: u64 = days - 146097 * eras;
    loop
        invariant
            1970 <= y,
            rest + days_to_year(y as int) == days,
            days <= 1_000_000_000_000,
            y - 1970 <= days / 365,
        ensures
            1970 <= y,
            rest + days_to_year(y as int) == days,
            rest < year_len(y as int),
        decreases rest,
    {
        let len: u64 = if leap(y) {
            366
        } else {
            365
        };
        if rest < len {
            break;
        }
        proof {
            lemma_days_to_year_mono(1970, y + 1);
            assert((y + 1 - 1970) * 365 <= days);
            assert(y + 1 - 1970 <= days / 365) by (nonlinear_arith)
                requires
                    (y + 1 - 1970) * 365 <= days,
                    y + 1 >= 1970,
            ;
        }
        rest = rest - len;
        y = y + 1;
    }
    proof {
        lemma_months_fill_the_year(y as int);
    }
    let mut m: u32 = 1;
    loop
        invariant
            1 <= m <= 12,
            rest + days_to_month(y as int, m as int) + days_to_year(y as int) == days,
            rest + days_to_month(y as int, m as int) < year_len(y as int),
            days_to_month(y as int, 13) == year_len(y as int),
            forall|k: int| 1 <= k <= 12 ==> #[trigger] days_to_month(y as int, k + 1)
                == days_to_month(y as int, k) + month_len(y as int, k),
        ensures
            1 <= m <= 12,
            rest + days_to_month(y as int, m as int) + days_to_year(y as int) == days,
            rest < month_len(y as int, m as int),
        decreases 12 - m,
    {
        let len: u64 = if m == 2 {
            if leap(y) {
                29
            } else {
                28
            }
        } else if m == 4 || m == 6 || m == 9 || m == 11 {
            30
        } else {
            31
        };
        if rest < len {
            break;
        }
        proof {
            assert(days_to_month(y as int, m + 1) == days_to_month(y as int, m as int) + len);
            if m == 12 {
                assert(false);
            }
        }
        rest = rest - len;
        m = m + 1;
    }
    (y, m, (rest + 1) as u32)
}

/// `s` left-padded with `0` to at least `width` characters.
pub open spec fn zero_padded(s: Seq<char>, width: int) -> Seq<char> {
    if s.len() >= width {
        s
    } else {
        Seq::new((width - s.len()) as nat, |i: int| '0') + s
    }
}

/// A date as `YYYY-MM-DD`, each part zero-padded to its width.
pub open spec fn date_text(y: nat, m: nat, d: nat) -> Seq<char> {
    zero_padded(decimal_spec(y), 4) + seq!['-'] + zero_padded(decimal_spec(m), 2) + seq!['-']
        + zero_padded(decimal_spec(d), 2)
}

fn push_padded(out: &mut Vec<char>, n: u64, width: usize)
    requires
        width <= 4,
    ensures
        final(out)@ == old(out)@ + zero_padded(decimal_spec(n as nat), width as int),
{
    let digits = decimal(n);
    let ghost start = out@;
    let mut k = digits.len();
    while k < width
        invariant
            digits.len() <= k <= width || width <= digits.len() == k,
            digits@.len() == digits.len(),
            out@ == start + Seq::new((k - digits@.len()) as nat, |i: int| '0'),
        decreases width - k,
    {
        out.push('0');
        k += 1;
        proof {
            assert(out@ =~= start + Seq::new((k - digits@.len()) as nat, |i: int| '0'));
        }
    }
    push_chars(out, digits.as_slice());
    proof {
        if digits@.len() >= width {
            assert(out@ =~= start + digits@);
        } else {
            assert(out@ =~= start + (Seq::new((width - digits@.len()) as nat, |i: int| '0') + digits@));
        }
    }
}

/// The date `days` days after 1970-01-01, as `YYYY-MM-DD`.
pub fn date_of(days: u64) -> (r: String)
    requires
        days <= 1_000_000_000_000,
    ensures
        exists|y: int, m: int, d: int|
            valid_date(y, m, d) && days_since_epoch(y, m, d) == days && r@ == date_text(
                y as nat,
                m as nat,
                d as nat,
            ),
{
    let (y, m, d) = civil_from_days(days);
    let mut out: Vec<char> = Vec::new();
    push_padded(&mut out, y, 4);
    out.push('-');
    push_padded(&mut out, m as u64, 2);
    out.push('-');
    push_padded(&mut out, d as u64, 2);
    proof {
        assert(out@ =~= date_text(y as nat, m as nat, d as nat));
    }
    let r = string_of(out.as_slice());
    proof {
        assert(valid_date(y as int, m as int, d as int) && days_since_epoch(y as int, m as int, d as int)
            == days && r@ == date_text((y as int) as nat, (m as int) as nat, (d as int) as nat));
    }
    r
}

} // verus!
