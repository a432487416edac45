//! Moments, spans and calendar dates as plain numbers.

use crate::text::{decimal, decimal_text, join};
use vstd::prelude::*;

verus! {

/// The farthest from the epoch a moment may lie, in seconds.
pub const MOMENT_LIMIT_SECS: i64 = 9_000_000_000_000;

/// The longest a span may be, in nanoseconds: `i64::MAX` milliseconds.
pub const SPAN_LIMIT_NANOS: i128 = 9_223_372_036_854_775_807_000_000;

/// A moment, in nanoseconds since the Unix epoch.
#[derive(Debug, Clone, Copy, PartialEq, Eq, Structural)]
pub struct Moment {
    nanos: i128,
}

/// A signed span of time, in nanoseconds.
#[derive(Debug, Clone, Copy, PartialEq, Eq, Structural)]
pub struct Span {
    nanos: i128,
}

impl View for Moment {
    type V = int;

    closed spec fn view(&self) -> int {
        self.nanos as int
    }
}

impl View for Span {
    type V = int;

    closed spec fn view(&self) -> int {
        self.nanos as int
    }
}

impl Moment {
    #[verifier::type_invariant]
    spec fn within_limit(self) -> bool {
        -MOMENT_LIMIT_SECS * 1_000_000_000 <= self.nanos <= MOMENT_LIMIT_SECS * 1_000_000_000
            + 999_999_999
    }

    /// The moment the given seconds and nanoseconds after the epoch.
    pub fn from_timestamp(secs: i64, nanos: u32) -> (r: Option<Moment>)
        ensures
            r is Some <==> -MOMENT_LIMIT_SECS <= secs <= MOMENT_LIMIT_SECS && nanos
                < 1_000_000_000,
            r matches Some(m) ==> m@ == secs * 1_000_000_000 + nanos,
    {
        if secs < -MOMENT_LIMIT_SECS || secs > MOMENT_LIMIT_SECS || nanos >= 1_000_000_000 {
            None
        } else {
            Some(Moment { nanos: (secs as i128) * 1_000_000_000 + (nanos as i128) })
        }
    }

    /// Whole seconds since the epoch and the nanoseconds past them.
    pub fn timestamp(self) -> (r: (i64, u32))
        ensures
            r.0 * 1_000_000_000 + r.1 == self@,
            r.1 < 1_000_000_000,
    {
        proof {
            use_type_invariant(self);
        }
        let shifted: i128 = self.nanos + 9_000_000_000_000_000_000_000;
        let secs: i128 = shifted / 1_000_000_000;
        let rest: i128 = shifted % 1_000_000_000;
        ((secs - 9_000_000_000_000) as i64, rest as u32)
    }

    /// The span from the earlier moment to this one.
    pub fn since(self, earlier: Moment) -> (r: Span)
        ensures
            r@ == self@ - earlier@,
    {
        proof {
            use_type_invariant(self);
            use_type_invariant(earlier);
        }
        Span { nanos: self.nanos - earlier.nanos }
    }
}

impl Span {
    #[verifier::type_invariant]
    spec fn within_limit(self) -> bool {
        -SPAN_LIMIT_NANOS <= self.nanos <= SPAN_LIMIT_NANOS
    }

    pub fn from_nanos(nanos: i128) -> (r: Option<Span>)
        ensures
            r is Some <==> -SPAN_LIMIT_NANOS <= nanos <= SPAN_LIMIT_NANOS,
            r matches Some(s) ==> s@ == nanos,
    {
        if nanos < -SPAN_LIMIT_NANOS || nanos > SPAN_LIMIT_NANOS {
            None
        } else {
            Some(Span { nanos })
        }
    }

    pub fn as_nanos(self) -> (r: i128)
        ensures
            r == self@,
            -SPAN_LIMIT_NANOS <= r <= SPAN_LIMIT_NANOS,
    {
        proof {
            use_type_invariant(self);
        }
        self.nanos
    }

    /// The same length of time in the other direction.
    pub fn negated(self) -> (r: Span)
        ensures
            r@ == -self@,
    {
        proof {
            use_type_invariant(self);
        }
        Span { nanos: -self.nanos }
    }
}

/// The absolute value of a number.
pub open spec fn magnitude(n: int) -> nat {
    if n < 0 {
        (-n) as nat
    } else {
        n as nat
    }
}

/// So many of a unit; nothing for none. The long units have a plural.
pub open spec fn unit_count(n: u64, unit: Seq<char>, has_plural: bool) -> Seq<Seq<char>> {
    if n == 0 {
        Seq::empty()
    } else {
        seq![decimal(n as nat) + unit + (if has_plural && n > 1 { "s"@ } else { Seq::empty() })]
    }
}

/// A number of seconds in units (`1h 30m`). A year has 365.25 days and a month
/// 30.44.
pub open spec fn duration_notation(secs: u64) -> Seq<char> {
    let of_year = secs % 31_557_600;
    let of_month = of_year % 2_630_016;
    let of_day = of_month % 86_400;
    if secs == 0 {
        "0s"@
    } else {
        join(
            unit_count(secs / 31_557_600, "year"@, true) + unit_count(
                of_year / 2_630_016,
                "month"@,
                true,
            ) + unit_count(of_month / 86_400, "day"@, true) + unit_count(
                of_day / 3_600,
                "h"@,
                false,
            ) + unit_count(of_day % 3_600 / 60, "m"@, false) + unit_count(
                of_day % 60,
                "s"@,
                false,
            ),
            " "@,
        )
    }
}

/// `humantime::format_duration` on a whole number of seconds: the units that
/// occur, from years to seconds, with a space between them.
#[verifier::external_body]
pub(crate) fn duration_text(secs: u64) -> (r: String)
    ensures
        r@ == duration_notation(secs),
{
    humantime::format_duration(std::time::Duration::from_secs(secs)).to_string()
}

/// A date of the proleptic Gregorian calendar.
#[derive(Debug, Clone, Copy, PartialEq, Eq, Structural)]
pub struct CalendarDate {
    year: i32,
    month: u32,
    day: u32,
}

/// What a date is: year, month and day.
pub struct DateView {
    pub year: int,
    pub month: nat,
    pub day: nat,
}

impl View for CalendarDate {
    type V = DateView;

    closed spec fn view(&self) -> DateView {
        DateView { year: self.year as int, month: self.month as nat, day: self.day as nat }
    }
}

/// The year has a 29th of February.
pub open spec fn is_leap(year: int) -> bool {
    year % 4 == 0 && (year % 100 != 0 || year % 400 == 0)
}

/// The number of days of a month.
pub open spec fn days_in_month(year: int, month: nat) -> nat {
    if month == 2 {
        if is_leap(year) {
            29
        } else {
            28
        }
    } else if month == 4 || month == 6 || month == 9 || month == 11 {
        30
    } else {
        31
    }
}

/// The three numbers name a day.
pub open spec fn is_date(year: int, month: nat, day: nat) -> bool {
    -262_143 <= year <= 262_142 && 1 <= month <= 12 && 1 <= day <= days_in_month(year, month)
}

impl CalendarDate {
    #[verifier::type_invariant]
    spec fn is_valid(self) -> bool {
        is_date(self.year as int, self.month as nat, self.day as nat)
    }

    /// The date with the given year, month and day, where there is one.
    pub fn from_ymd_opt(year: i32, month: u32, day: u32) -> (r: Option<CalendarDate>)
        ensures
            r is Some <==> is_date(year as int, month as nat, day as nat),
            r matches Some(d) ==> d@ == (DateView {
                year: year as int,
                month: month as nat,
                day: day as nat,
            }),
    {
        if year < -262_143 || year > 262_142 || month < 1 || month > 12 || day < 1 {
            return None;
        }
        let shifted: u32 = (year + 262_400) as u32;
        assert(shifted % 4 == 0 <==> (year as int) % 4 == 0) by (nonlinear_arith)
            requires
                shifted == year + 262_400,
        ;
        assert(shifted % 100 == 0 <==> (year as int) % 100 == 0) by (nonlinear_arith)
            requires
                shifted == year + 262_400,
        ;
        assert(shifted % 400 == 0 <==> (year as int) % 400 == 0) by (nonlinear_arith)
            requires
                shifted == year + 262_400,
        ;
        let leap = shifted % 4 == 0 && (shifted % 100 != 0 || shifted % 400 == 0);
        let last: u32 = if month == 2 {
            if leap {
                29
            } else {
                28
            }
        } else if month == 4 || month == 6 || month == 9 || month == 11 {
            30
        } else {
            31
        };
        if day > last {
            None
        } else {
            Some(CalendarDate { year, month, day })
        }
    }

    /// The date as `YYYY-MM-DD`.
    pub fn to_string(self) -> (r: String)
        ensures
            r@ == date_text(self@),
            is_date(self@.year, self@.month, self@.day),
    {
        proof {
            use_type_invariant(self);
        }
        let mut out = String::new();
        if self.year < 0 {
            out.push('-');
            out.push_str(padded_text((-self.year) as u64, 4).as_str());
        } else {
            if self.year > 9999 {
                out.push('+');
            }
            out.push_str(padded_text(self.year as u64, 4).as_str());
        }
        assert(out@ =~= year_text(self@.year));
        out.push_str("-");
        out.push_str(padded_text(self.month as u64, 2).as_str());
        out.push_str("-");
        out.push_str(padded_text(self.day as u64, 2).as_str());
        out
    }
}

/// A number with zeros in front up to the width.
pub open spec fn zero_padded(n: nat, width: nat) -> Seq<char> {
    let d = decimal(n);
    Seq::new(
        if d.len() < width {
            (width - d.len()) as nat
        } else {
            0
        },
        |i: int| '0',
    ) + d
}

/// A year: four digits, with a sign where four digits do not do.
pub open spec fn year_text(year: int) -> Seq<char> {
    if year < 0 {
        seq!['-'] + zero_padded(magnitude(year), 4)
    } else if year > 9999 {
        seq!['+'] + zero_padded(magnitude(year), 4)
    } else {
        zero_padded(magnitude(year), 4)
    }
}

/// A date as `YYYY-MM-DD`.
pub open spec fn date_text(d: DateView) -> Seq<char> {
    year_text(d.year) + "-"@ + zero_padded(d.month, 2) + "-"@ + zero_padded(d.day, 2)
}

fn padded_text(n: u64, width: u64) -> (r: String)
    requires
        width <= 10,
    ensures
        r@ == zero_padded(n as nat, width as nat),
{
    let digits = decimal_text(n);
    let have: usize = crate::text::chars_of(digits.as_str()).len();
    let mut out = String::new();
    let mut i: u64 = have as u64;
    let ghost short = if have < width {
        width - have
    } else {
        0
    };
    let ghost zeros = Seq::new(short as nat, |k: int| '0');
    assert(out@ =~= zeros.take(0));
    while i < width
        invariant
            have <= i,
            i <= width || i == have,
            short == if have < width {
                width - have
            } else {
                0
            },
            zeros == Seq::new(short as nat, |k: int| '0'),
            out@ == zeros.take(i - have),
        decreases width - i,
    {
        out.push('0');
        i = i + 1;
        assert(out@ =~= zeros.take(i - have));
    }
    assert(zeros.take(i - have) =~= zeros);
    out.push_str(digits.as_str());
    out
}

/// A year has 365 days, and a leap year one more.
pub proof fn months_make_a_year(year: int)
    ensures
        days_in_month(year, 1) + days_in_month(year, 2) + days_in_month(year, 3) + days_in_month(
            year,
            4,
        ) + days_in_month(year, 5) + days_in_month(year, 6) + days_in_month(year, 7)
            + days_in_month(year, 8) + days_in_month(year, 9) + days_in_month(year, 10)
            + days_in_month(year, 11) + days_in_month(year, 12) == if is_leap(year) {
            366nat
        } else {
            365nat
        },
        is_date(year, 2, 29) ==> is_leap(year),
        !is_date(year, 2, 30),
{
}

/// Every fourth year is a leap year, but of the full centuries only every
/// fourth.
pub proof fn leap_years_repeat(year: int)
    ensures
        is_leap(year + 400) == is_leap(year),
        year % 4 != 0 ==> !is_leap(year),
        year % 100 != 0 ==> is_leap(year) == (year % 4 == 0),
        is_leap(100 * year) == (year % 4 == 0),
{
    assert((100 * year) % 400 == 0 <==> year % 4 == 0) by (nonlinear_arith);
    assert((100 * year) % 4 == 0) by (nonlinear_arith);
    assert((100 * year) % 100 == 0) by (nonlinear_arith);
}

/// A padded number has at least the width, ends with the number, and has
/// nothing but zeros before it.
pub proof fn padding_is_zeros_in_front(n: nat, width: nat)
    ensures
        zero_padded(n, width).len() >= width,
        zero_padded(n, width).len() == width || zero_padded(n, width) == decimal(n),
        decimal(n).is_suffix_of(zero_padded(n, width)),
        forall|i: int|
            0 <= i < zero_padded(n, width).len() - decimal(n).len() ==> #[trigger] zero_padded(
                n,
                width,
            )[i] == '0',
{
    let p = zero_padded(n, width);
    let d = decimal(n);
    assert(p.skip(p.len() - d.len()) =~= d);
    if d.len() >= width {
        assert(p =~= d);
    }
}

/// A date is written with its year first and its day last, and the month
/// between them.
pub proof fn date_is_written_from_year_to_day(d: DateView)
    ensures
        0 <= d.year <= 9999 ==> zero_padded(d.year as nat, 4).is_prefix_of(date_text(d)),
        d.year > 9999 ==> date_text(d)[0] == '+',
        d.year < 0 ==> date_text(d)[0] == '-',
        ("-"@ + zero_padded(d.month, 2) + "-"@ + zero_padded(d.day, 2)).is_suffix_of(
            date_text(d),
        ),
{
    let t = date_text(d);
    let z = "-"@ + zero_padded(d.month, 2) + "-"@ + zero_padded(d.day, 2);
    assert(t.skip(t.len() - z.len()) =~= z);
    if 0 <= d.year <= 9999 {
        let y = zero_padded(d.year as nat, 4);
        assert(t.take(y.len() as int) =~= y);
    }
}

/// A number and its negative have the same magnitude, and one that is not
/// negative is its own.
pub proof fn magnitude_drops_the_sign(n: int)
    ensures
        magnitude(-n) == magnitude(n),
        n >= 0 ==> magnitude(n) == n,
        magnitude(n) == n || magnitude(n) == -n,
{
}

} // verus!
