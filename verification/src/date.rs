//! Calendar dates, due-date input in natural language, and the short labels
//! that the list shows for dates.
//!
//! A date is held as its day number in the proleptic Gregorian calendar,
//! counting 1 January of year 1 as day 1 (`civil_day`); chrono converts
//! between day numbers, dates and text.

use vstd::prelude::*;

use chrono::Datelike;

use crate::stamp::{has_char, Stamp};
use crate::text::{
    all_digits, chars_eq, chars_of, decimal, decimal_chars, digits_value, digits_value_upto,
    lemma_skip_digits_bounds, parse_u32, parse_u32_chars, skip_digits, skip_digits_exec,
    slice_range, string_of, trim, trim_chars,
};

verus! {

/// Day number of the first date chrono can represent.
pub const MIN_DAYS: i32 = -95746129;

/// Day number of the last date chrono can represent.
pub const MAX_DAYS: i32 = 95745399;

/// The first year chrono can represent.
pub const MIN_YEAR: i32 = -262143;

/// The last year chrono can represent.
pub const MAX_YEAR: i32 = 262142;

pub open spec fn in_range(n: int) -> bool {
    MIN_DAYS <= n <= MAX_DAYS
}

/// Day `n` written as `%Y-%m-%d` by chrono's formatter.
pub uninterp spec fn spec_format_ymd(n: int) -> Seq<char>;

/// Day `n` as chrono's `Display` writes it.
pub uninterp spec fn spec_display(n: int) -> Seq<char>;

/// What chrono's `%Y-%m-%d` parser makes of `s`.
pub uninterp spec fn spec_parse_ymd(s: Seq<char>) -> Option<int>;

/// What chrono's `FromStr` for dates makes of `s`.
pub uninterp spec fn spec_parse_date(s: Seq<char>) -> Option<int>;

/// `s` in lower case, as `str::to_lowercase` maps it.
pub uninterp spec fn spec_lowercase(s: Seq<char>) -> Seq<char>;

/// A calendar date.
#[derive(Debug, Clone, Copy, PartialEq, Eq, Structural)]
pub struct Date {
    days: i32,
}

impl View for Date {
    type V = int;

    closed spec fn view(&self) -> int {
        self.days as int
    }
}

/// The date `n` days after `today`, if the calendar reaches it.
pub open spec fn shift(today: int, n: int) -> Option<int> {
    if in_range(today + n) {
        Some(today + n)
    } else {
        None
    }
}

impl Date {
    #[verifier::type_invariant]
    spec fn inv(self) -> bool {
        in_range(self.days as int)
    }

    /// The day number.
    pub fn days(&self) -> (res: i32)
        ensures
            res == self@,
            in_range(res as int),
    {
        proof {
            use_type_invariant(self);
        }
        self.days
    }

    /// The date with day number `n`, if the calendar reaches it.
    pub fn from_days(n: i64) -> (res: Option<Date>)
        ensures
            res matches Some(d) ==> d@ == n,
            res is Some <==> in_range(n as int),
    {
        if MIN_DAYS as i64 <= n && n <= MAX_DAYS as i64 {
            Some(Date { days: n as i32 })
        } else {
            None
        }
    }

    /// Year `y`, month `m`, day `d`, if that date exists: chrono's
    /// `NaiveDate::from_ymd_opt`, converted. It exists when the month and
    /// day are valid in that year of the Gregorian calendar and the year is
    /// within chrono's range.
    #[verifier::external_body]
    pub(crate) fn from_ymd(y: i32, m: u32, d: u32) -> (res: Option<Date>)
        ensures
            res matches Some(r) ==> civil_day(y as int, m as int, d as int) == Some(r@),
            res is Some <==> civil_day(y as int, m as int, d as int) is Some,
    {
        match chrono::NaiveDate::from_ymd_opt(y, m, d) {
            Some(x) => Some(Date { days: x.num_days_from_ce() }),
            None => None,
        }
    }

    /// The year of this date: chrono's `Datelike::year`, the year of the
    /// Gregorian calendar in which the day falls (`year_of`).
    #[verifier::external_body]
    pub(crate) fn year(&self) -> (res: i32)
        ensures
            res == year_of(self@),
    {
        chrono::NaiveDate::from_num_days_from_ce_opt(self.days).unwrap().year()
    }

    /// The date `n` days later (earlier for negative `n`), if the calendar
    /// reaches it. A date is its day number, so this is an addition held to
    /// the range of the calendar.
    pub(crate) fn add_days(&self, n: i64) -> (res: Option<Date>)
        ensures
            res matches Some(r) ==> shift(self@, n as int) == Some(r@),
            res is None ==> shift(self@, n as int) is None,
    {
        proof {
            use_type_invariant(self);
        }
        match (self.days as i64).checked_add(n) {
            Some(t) => Date::from_days(t),
            None => None,
        }
    }

    /// Whole days from `earlier` to this date.
    pub(crate) fn days_since(&self, earlier: &Date) -> (res: i64)
        ensures
            res == self@ - earlier@,
    {
        (self.days as i64) - (earlier.days as i64)
    }

    /// This date written by chrono's `format("%Y-%m-%d")`.
    #[verifier::external_body]
    pub(crate) fn format_ymd(&self) -> (res: String)
        ensures
            res@ == spec_format_ymd(self@),
    {
        chrono::NaiveDate::from_num_days_from_ce_opt(self.days).unwrap().format("%Y-%m-%d").to_string()
    }

    /// This date as chrono's `Display` writes it. For years 0 to 9999 that is
    /// `%Y-%m-%d`, which chrono's `FromStr` reads back.
    #[verifier::external_body]
    pub(crate) fn display(&self) -> (res: String)
        ensures
            res@ == spec_display(self@),
            res@.len() >= 10,
            !has_char(res@, '\t'),
            !has_char(res@, '\n'),
            0 <= year_of(self@) <= 9999 ==> spec_parse_date(res@) == Some(self@),
    {
        chrono::NaiveDate::from_num_days_from_ce_opt(self.days).unwrap().to_string()
    }

    /// The date `s` spells as `%Y-%m-%d`: chrono's `NaiveDate::parse_from_str`.
    #[verifier::external_body]
    pub(crate) fn parse_ymd(s: &str) -> (res: Option<Date>)
        ensures
            res matches Some(r) ==> spec_parse_ymd(s@) == Some(r@),
            res is None ==> spec_parse_ymd(s@) is None,
    {
        match chrono::NaiveDate::parse_from_str(s, "%Y-%m-%d") {
            Ok(x) => Some(Date { days: x.num_days_from_ce() }),
            Err(_) => None,
        }
    }

    /// The date `s` spells: chrono's `FromStr` for `NaiveDate`.
    #[verifier::external_body]
    pub(crate) fn parse(s: &str) -> (res: Option<Date>)
        ensures
            res matches Some(r) ==> spec_parse_date(s@) == Some(r@),
            res is None ==> spec_parse_date(s@) is None,
    {
        match s.parse::<chrono::NaiveDate>() {
            Ok(x) => Some(Date { days: x.num_days_from_ce() }),
            Err(_) => None,
        }
    }
}

/// `+3d`, `3d`, `+2w`, `1m`: how many days such an offset from today asks
/// for. A week is seven days and a month thirty.
pub open spec fn offset_days(s: Seq<char>) -> Option<int> {
    let t = if s.len() > 0 && s[0] == '+' {
        s.drop_first()
    } else {
        s
    };
    let i = skip_digits(t, 0);
    let num = t.subrange(0, i);
    let unit = t.subrange(i, t.len() as int);
    if i >= t.len() || i == 0 || digits_value(num) > i64::MAX {
        None
    } else if unit == "d"@ {
        Some(digits_value(num))
    } else if unit == "w"@ {
        Some(digits_value(num) * 7)
    } else if unit == "m"@ {
        Some(digits_value(num) * 30)
    } else {
        None
    }
}

/// Whether `y` is a leap year of the Gregorian calendar.
pub open spec fn leap(y: int) -> bool {
    y % 4 == 0 && (y % 100 != 0 || y % 400 == 0)
}

/// How many days month `m` of year `y` has.
pub open spec fn days_in_month(y: int, m: int) -> int {
    if m == 2 {
        if leap(y) {
            29
        } else {
            28
        }
    } else if m == 4 || m == 6 || m == 9 || m == 11 {
        30
    } else {
        31
    }
}

/// Whether day `d` of month `m` exists in year `y`.
pub open spec fn valid_date(y: int, m: int, d: int) -> bool {
    1 <= m <= 12 && 1 <= d <= days_in_month(y, m)
}

/// How many days the years before year `y` have, counted from year 1 (a
/// negative count for years before it).
pub open spec fn days_before_year(y: int) -> int {
    let p = y - 1;
    365 * p + p / 4 - p / 100 + p / 400
}

/// How many days the months of year `y` before month `m` have.
pub open spec fn days_before_month(y: int, m: int) -> int {
    let base = if m <= 1 {
        0int
    } else if m == 2 {
        31
    } else if m == 3 {
        59
    } else if m == 4 {
        90
    } else if m == 5 {
        120
    } else if m == 6 {
        151
    } else if m == 7 {
        181
    } else if m == 8 {
        212
    } else if m == 9 {
        243
    } else if m == 10 {
        273
    } else if m == 11 {
        304
    } else {
        334
    };
    if m > 2 && leap(y) {
        base + 1
    } else {
        base
    }
}

/// The day number of year `y`, month `m`, day `d`, if that date exists and
/// lies within the years chrono reaches.
pub open spec fn civil_day(y: int, m: int, d: int) -> Option<int> {
    if MIN_YEAR <= y <= MAX_YEAR && valid_date(y, m, d) {
        Some(days_before_year(y) + days_before_month(y, m) + d)
    } else {
        None
    }
}

/// Whether day `n` falls in year `y`.
pub open spec fn in_year(n: int, y: int) -> bool {
    days_before_year(y) < n <= days_before_year(y + 1)
}

/// The year in which day `n` falls.
pub open spec fn year_of(n: int) -> int {
    choose|y: int| in_year(n, y)
}

/// A year has 365 days, or 366 in a leap year.
pub proof fn lemma_year_length(y: int)
    ensures
        days_before_year(y + 1) - days_before_year(y) == if leap(y) {
            366int
        } else {
            365int
        },
{
    let p = y - 1;
    assert(y / 4 - p / 4 == if y % 4 == 0 { 1int } else { 0int });
    assert(y / 100 - p / 100 == if y % 100 == 0 { 1int } else { 0int });
    assert(y / 400 - p / 400 == if y % 400 == 0 { 1int } else { 0int });
    if y % 400 == 0 {
        assert(y % 100 == 0 && y % 4 == 0);
    } else if y % 100 == 0 {
        assert(y % 4 == 0);
    }
}

/// Later years start later.
pub proof fn lemma_years_increase(a: int, b: int)
    requires
        a <= b,
    ensures
        days_before_year(a) <= days_before_year(b),
        a < b ==> days_before_year(a) + 365 <= days_before_year(b),
    decreases b - a,
{
    if a < b {
        lemma_year_length(b - 1);
        lemma_years_increase(a, b - 1);
    }
}

proof fn lemma_year_up(n: int, y: int)
    requires
        days_before_year(y) < n,
    ensures
        exists|z: int| in_year(n, z),
    decreases n - days_before_year(y),
{
    if n > days_before_year(y + 1) {
        lemma_year_length(y);
        lemma_year_up(n, y + 1);
    } else {
        assert(in_year(n, y));
    }
}

proof fn lemma_year_down(n: int, y: int)
    requires
        n <= days_before_year(y + 1),
    ensures
        exists|z: int| in_year(n, z),
    decreases days_before_year(y + 1) - n,
{
    if n <= days_before_year(y) {
        lemma_year_length(y - 1);
        lemma_year_down(n, y - 1);
    } else {
        assert(in_year(n, y));
    }
}

/// Every day falls in exactly one year.
pub proof fn lemma_year_of(n: int)
    ensures
        in_year(n, year_of(n)),
        forall|y: int| #[trigger] in_year(n, y) ==> y == year_of(n),
{
    if n > 0 {
        assert(days_before_year(1) == 0);
        lemma_year_up(n, 1);
    } else {
        assert(days_before_year(1) == 0);
        lemma_year_down(n, 0);
    }
    let z = year_of(n);
    assert forall|y: int| #[trigger] in_year(n, y) implies y == z by {
        if y < z {
            lemma_years_increase(y + 1, z);
        } else if y > z {
            lemma_years_increase(z + 1, y);
        }
    }
}

/// The year of a date is the year it was made from.
pub proof fn lemma_year_of_civil(y: int, m: int, d: int)
    requires
        civil_day(y, m, d) is Some,
    ensures
        year_of(civil_day(y, m, d)->0) == y,
{
    let n = civil_day(y, m, d)->0;
    lemma_year_length(y);
    assert(days_before_month(y, m) + d <= if leap(y) { 366int } else { 365int });
    assert(in_year(n, y));
    lemma_year_of(n);
}

/// Later days never fall in earlier years, and every day of the calendar
/// falls in one of the years chrono reaches.
pub proof fn lemma_year_of_order(a: int, b: int)
    requires
        a <= b,
    ensures
        year_of(a) <= year_of(b),
        in_range(a) ==> MIN_YEAR <= year_of(a) <= MAX_YEAR,
{
    lemma_year_of(a);
    lemma_year_of(b);
    let ya = year_of(a);
    let yb = year_of(b);
    if ya > yb {
        lemma_years_increase(yb + 1, ya);
    }
    if in_range(a) {
        assert(days_before_year(MIN_YEAR as int) == MIN_DAYS - 1);
        assert(days_before_year(MAX_YEAR + 1) == MAX_DAYS);
        if ya < MIN_YEAR {
            lemma_years_increase(ya + 1, MIN_YEAR as int);
        }
        if ya > MAX_YEAR {
            lemma_years_increase(MAX_YEAR + 1, ya);
        }
    }
}

/// Whether day `d` of month `m` exists in some year: 29 February counts.
pub open spec fn month_day_exists(m: int, d: int) -> bool {
    1 <= m <= 12 && 1 <= d <= if m == 2 {
        29
    } else {
        days_in_month(1, m)
    }
}

/// Month and day of a bare `12-25`: the numbers either side of the first
/// `-`.
pub open spec fn md_parts(s: Seq<char>) -> Option<(int, int)> {
    if exists|j: int| 0 <= j < s.len() && s[j] == '-' {
        let j = choose|j: int|
            0 <= j < s.len() && s[j] == '-' && forall|k: int| 0 <= k < j ==> s[k] != '-';
        let m = parse_u32(s.subrange(0, j));
        let d = parse_u32(s.subrange(j + 1, s.len() as int));
        if m is None || d is None {
            None
        } else {
            Some((m->0, d->0))
        }
    } else {
        None
    }
}

/// The first day `m`-`d`, in year `y` or one of the `n - 1` years after it,
/// that falls on or after `today`.
pub open spec fn next_month_day(y: int, m: int, d: int, today: int, n: nat) -> Option<int>
    decreases n,
{
    if n == 0 {
        None
    } else {
        match civil_day(y, m, d) {
            Some(x) => if x >= today {
                Some(x)
            } else {
                next_month_day(y + 1, m, d, today, (n - 1) as nat)
            },
            None => next_month_day(y + 1, m, d, today, (n - 1) as nat),
        }
    }
}

/// Bare `12-25`: the next such day on or after today, this year or in one
/// of the years that follow; a month-day that has already passed means next
/// year rather than a date in the past, and 29 February the next leap
/// year's. Leap years are never more than eight years apart, so nine years
/// are searched.
pub open spec fn month_day(s: Seq<char>, today: int) -> Option<int> {
    match md_parts(s) {
        Some((m, d)) => next_month_day(year_of(today), m, d, today, 9),
        None => None,
    }
}

/// Within the eight years after `y` there is a leap year.
pub proof fn lemma_leap_within(y: int)
    ensures
        exists|k: int| 1 <= k <= 8 && #[trigger] leap(y + k),
{
    let r = (y + 1) % 4;
    let a = if r == 0 {
        y + 1
    } else {
        y + 1 + (4 - r)
    };
    assert(a % 4 == 0);
    assert((a + 4) % 4 == 0);
    if a % 100 != 0 {
        assert(leap(y + (a - y)));
    } else {
        assert((a + 4) % 100 == 4);
        assert(leap(y + (a + 4 - y)));
    }
}

/// What due-date input means, once trimmed and lowered: `Ok(None)` clears
/// the date, `Ok(Some(d))` sets it, `Err(())` is input that means nothing.
pub open spec fn due_from(s: Seq<char>, today: int) -> Result<Option<int>, ()> {
    if s.len() == 0 || s == "-"@ || s == "none"@ || s == "clear"@ {
        Ok(None)
    } else if s == "today"@ {
        Ok(Some(today))
    } else if s == "tomorrow"@ || s == "tmr"@ {
        match shift(today, 1) {
            Some(d) => Ok(Some(d)),
            None => Err(()),
        }
    } else if offset_days(s) is Some {
        match shift(today, offset_days(s)->0) {
            Some(d) => Ok(Some(d)),
            None => Err(()),
        }
    } else if spec_parse_ymd(s) is Some {
        Ok(Some(spec_parse_ymd(s)->0))
    } else if month_day(s, today) is Some {
        Ok(Some(month_day(s, today)->0))
    } else {
        Err(())
    }
}

/// Input that is none of the other forms, so that only a month-day can
/// make sense of it.
pub open spec fn bare_month_day(s: Seq<char>) -> bool {
    &&& !(s.len() == 0 || s == "-"@ || s == "none"@ || s == "clear"@)
    &&& s != "today"@
    &&& !(s == "tomorrow"@ || s == "tmr"@)
    &&& offset_days(s) is None
    &&& spec_parse_ymd(s) is None
}

/// The due date that `input` asks for, `today` being `today`.
pub open spec fn parse_due_spec(input: Seq<char>, today: int) -> Result<Option<int>, ()> {
    due_from(spec_lowercase(trim(input)), today)
}

pub open spec fn date_result_view(r: Result<Option<Date>, ()>) -> Result<Option<int>, ()> {
    match r {
        Ok(Some(d)) => Ok(Some(d@)),
        Ok(None) => Ok(None),
        Err(()) => Err(()),
    }
}

fn is_word(c: &[char], w: &str) -> (res: bool)
    ensures
        res == (c@ == w@),
{
    let wc = chars_of(w);
    chars_eq(c, wc.as_slice())
}

/// The date an offset like `+3d` asks for: `None` when `s` is no offset,
/// `Some(None)` when it is one that runs off the calendar.
fn exec_offset(s: &[char], today: &Date) -> (res: Option<Option<Date>>)
    ensures
        res is None ==> offset_days(s@) is None,
        res matches Some(r) ==> offset_days(s@) is Some && match r {
            Some(d) => shift(today@, offset_days(s@)->0) == Some(d@),
            None => shift(today@, offset_days(s@)->0) is None,
        },
{
    let start: usize = if s.len() > 0 && s[0] == '+' {
        1
    } else {
        0
    };
    let t = slice_range(s, start, s.len());
    proof {
        if start == 1 {
            assert(t@ == s@.drop_first());
        } else {
            assert(t@ == s@);
        }
    }
    let i = skip_digits_exec(t.as_slice(), 0);
    proof {
        lemma_skip_digits_bounds(t@, 0);
    }
    if i >= t.len() || i == 0 {
        return None;
    }
    let num = slice_range(t.as_slice(), 0, i);
    let unit = slice_range(t.as_slice(), i, t.len());
    proof {
        assert(all_digits(num@));
    }
    let n = match digits_value_upto(num.as_slice(), 0x7fff_ffff_ffff_ffff) {
        Some(v) => v,
        None => {
            return None;
        },
    };
    let k: u64 = if is_word(unit.as_slice(), "d") {
        1
    } else if is_word(unit.as_slice(), "w") {
        7
    } else if is_word(unit.as_slice(), "m") {
        30
    } else {
        return None;
    };
    proof {
        reveal_strlit("d");
        reveal_strlit("w");
        reveal_strlit("m");
        assert(offset_days(s@) == Some(n * k));
    }
    if n > 0x7fff_ffff_ffff_ffff / k {
        proof {
            assert(n * k > 1_000_000_000) by (nonlinear_arith)
                requires
                    n > 0x7fff_ffff_ffff_ffffu64 / k,
                    1 <= k <= 30,
            ;
            use_type_invariant(today);
        }
        return Some(None);
    }
    proof {
        assert(n * k <= 0x7fff_ffff_ffff_ffff) by (nonlinear_arith)
            requires
                n <= 0x7fff_ffff_ffff_ffffu64 / k,
                1 <= k,
        ;
    }
    Some(today.add_days((n * k) as i64))
}

/// `month_day` computed; a month-day never lands before today.
fn exec_month_day(s: &[char], today: &Date) -> (res: Option<Date>)
    ensures
        res matches Some(d) ==> month_day(s@, today@) == Some(d@) && d@ >= today@,
        res is None ==> month_day(s@, today@) is None,
        md_parts(s@) matches Some((m, d)) && month_day_exists(m, d) && year_of(today@) + 8
            <= MAX_YEAR ==> res is Some,
{
    let mut j: usize = 0;
    while j < s.len() && s[j] != '-'
        invariant
            j <= s@.len(),
            forall|k: int| 0 <= k < j ==> s@[k] != '-',
        decreases s@.len() - j,
    {
        j += 1;
    }
    if j == s.len() {
        return None;
    }
    proof {
        let c = choose|c: int|
            0 <= c < s@.len() && s@[c] == '-' && forall|k: int| 0 <= k < c ==> s@[k] != '-';
        assert(0 <= j < s@.len() && s@[j as int] == '-');
        if c < j {
            assert(s@[c] != '-');
        }
        if c > j {
            assert(s@[j as int] != '-');
        }
        assert(c == j);
    }
    let ms = slice_range(s, 0, j);
    let ds = slice_range(s, j + 1, s.len());
    let m = match parse_u32_chars(ms.as_slice()) {
        Some(m) => m,
        None => {
            return None;
        },
    };
    let d = match parse_u32_chars(ds.as_slice()) {
        Some(d) => d,
        None => {
            return None;
        },
    };
    proof {
        assert(md_parts(s@) == Some((m as int, d as int)));
    }
    let y = today.year();
    proof {
        use_type_invariant(&today);
        lemma_year_of_order(today@, today@);
        assert forall|n: int| in_range(n) && n < today@ implies year_of(n) <= y by {
            lemma_year_of_order(n, today@);
        }
    }
    let ghost yi = y as int;
    let mut k: i32 = 0;
    while k < 9
        invariant
            0 <= k <= 9,
            yi == y as int,
            md_parts(s@) == Some((m as int, d as int)),
            y == year_of(today@),
            MIN_YEAR <= y <= MAX_YEAR,
            forall|n: int| in_range(n) && n < today@ ==> year_of(n) <= y,
            next_month_day(yi, m as int, d as int, today@, 9) == next_month_day(
                yi + k,
                m as int,
                d as int,
                today@,
                (9 - k) as nat,
            ),
            forall|q: int|
                1 <= q < k && yi + q <= MAX_YEAR ==> !#[trigger] valid_date(
                    yi + q,
                    m as int,
                    d as int,
                ),
        decreases 9 - k,
    {
        let r = Date::from_ymd(y + k, m, d);
        proof {
            let n = (9 - k) as nat;
            assert((n - 1) as nat == (9 - (k + 1)) as nat);
            assert(next_month_day(yi + k, m as int, d as int, today@, n) == match civil_day(
                yi + k,
                m as int,
                d as int,
            ) {
                Some(x) => if x >= today@ {
                    Some(x)
                } else {
                    next_month_day(yi + k + 1, m as int, d as int, today@, (n - 1) as nat)
                },
                None => next_month_day(yi + k + 1, m as int, d as int, today@, (n - 1) as nat),
            });
        }
        match r {
            Some(x) => {
                if x.days() >= today.days() {
                    return Some(x);
                }
                proof {
                    if k >= 1 {
                        lemma_year_of_civil(yi + k, m as int, d as int);
                        assert(year_of(x@) == yi + k);
                        assert(year_of(x@) <= y);
                    }
                }
            },
            None => {},
        }
        k += 1;
    }
    proof {
        assert(next_month_day(yi + 9, m as int, d as int, today@, 0) is None);
        if month_day_exists(m as int, d as int) && yi + 8 <= MAX_YEAR {
            lemma_leap_within(yi);
            let q = choose|q: int| 1 <= q <= 8 && #[trigger] leap(yi + q);
            assert(valid_date(yi + q, m as int, d as int));
            if !(m == 2 && d == 29) {
                assert(valid_date(yi + 1, m as int, d as int));
            }
        }
    }
    None
}

/// The due date that `input` asks for, `today` being `today`. The input is
/// trimmed and lowered first; then come the words that clear a date
/// (nothing, `-`, `none`, `clear`), `today`, `tomorrow` or `tmr`, an offset
/// such as `+3d`, `2w` or `1m`, a full `2026-12-25`, and a bare month-day
/// such as `12-25`, which never lands in the past and, for any month and day
/// that some year has, 29 February included, always lands somewhere.
/// Anything else is `Err(())`, and so is a date past the end of the
/// calendar.
pub fn parse_due_from(input: &str, today: Date) -> (res: Result<Option<Date>, ()>)
    ensures
        date_result_view(res) == parse_due_spec(input@, today@),
        bare_month_day(spec_lowercase(trim(input@))) ==> (res matches Ok(Some(d)) ==> d@
            >= today@),
        bare_month_day(spec_lowercase(trim(input@))) ==> (md_parts(
            spec_lowercase(trim(input@)),
        ) matches Some((m, d)) && month_day_exists(m, d) && year_of(today@) + 8 <= MAX_YEAR
            ==> (res matches Ok(Some(x)) && x@ >= today@)),
{
    let raw = chars_of(input);
    let trimmed = trim_chars(raw.as_slice());
    let ts = string_of(trimmed.as_slice());
    let low = lowercase(ts.as_str());
    let s = chars_of(low.as_str());
    let sl = s.as_slice();
    if s.len() == 0 || is_word(sl, "-") || is_word(sl, "none") || is_word(sl, "clear") {
        return Ok(None);
    }
    if is_word(sl, "today") {
        return Ok(Some(today));
    }
    if is_word(sl, "tomorrow") || is_word(sl, "tmr") {
        return match today.add_days(1) {
            Some(d) => Ok(Some(d)),
            None => Err(()),
        };
    }
    match exec_offset(sl, &today) {
        Some(Some(d)) => {
            return Ok(Some(d));
        },
        Some(None) => {
            return Err(());
        },
        None => {},
    }
    if let Some(d) = Date::parse_ymd(low.as_str()) {
        return Ok(Some(d));
    }
    if let Some(d) = exec_month_day(sl, &today) {
        return Ok(Some(d));
    }
    Err(())
}

/// The due date that `input` asks for, today being the machine's today; see
/// `parse_due_from`. `Ok(None)` means the user cleared the date; `Err(())`
/// means unparseable.
pub fn parse_due(input: &str) -> (res: Result<Option<Date>, ()>)
    ensures
        exists|t: Date| date_result_view(res) == parse_due_spec(input@, t@),
{
    let t = today();
    parse_due_from(input, t)
}

/// Short label for a due date `due` when today is `today`, relative where
/// that reads better.
pub open spec fn label_text(due: int, today: int) -> Seq<char> {
    let d = due - today;
    if d == 0 {
        "today"@
    } else if d == 1 {
        "tomorrow"@
    } else if d == -1 {
        "yesterday"@
    } else if d < 0 {
        decimal((-d) as nat) + "d late"@
    } else if d < 7 {
        "in "@ + decimal(d as nat) + "d"@
    } else {
        spec_format_ymd(due)
    }
}

/// Short label for a date `d` in the past when today is `today`, for
/// history entries: the mirror of `label_text`.
pub open spec fn ago_text(d: int, today: int) -> Seq<char> {
    let n = today - d;
    if n == 0 {
        "today"@
    } else if n == 1 {
        "yesterday"@
    } else if 2 <= n < 7 {
        decimal(n as nat) + "d ago"@
    } else {
        spec_format_ymd(d)
    }
}

fn concat3(a: &str, b: Vec<char>, c: &str) -> (res: String)
    ensures
        res@ == a@ + b@ + c@,
{
    let mut v = chars_of(a);
    let mut b = b;
    v.append(&mut b);
    let mut cv = chars_of(c);
    v.append(&mut cv);
    string_of(v.as_slice())
}

/// Short label for the due date `due`, `today` being `today`.
pub fn label_from(due: Date, today: Date) -> (res: String)
    ensures
        res@ == label_text(due@, today@),
{
    let d = due.days_since(&today);
    proof {
        use_type_invariant(&due);
        use_type_invariant(&today);
    }
    if d == 0 {
        "today".to_owned()
    } else if d == 1 {
        "tomorrow".to_owned()
    } else if d == -1 {
        "yesterday".to_owned()
    } else if d < 0 {
        let n = decimal_chars((-d) as u64);
        proof {
            reveal_strlit("");
            assert(""@ + n@ == n@);
        }
        concat3("", n, "d late")
    } else if d < 7 {
        let n = decimal_chars(d as u64);
        concat3("in ", n, "d")
    } else {
        due.format_ymd()
    }
}

/// Short label for the past date `d`, `today` being `today`.
pub fn ago_from(d: Date, today: Date) -> (res: String)
    ensures
        res@ == ago_text(d@, today@),
{
    let n = today.days_since(&d);
    proof {
        use_type_invariant(&d);
        use_type_invariant(&today);
    }
    if n == 0 {
        "today".to_owned()
    } else if n == 1 {
        "yesterday".to_owned()
    } else if 2 <= n && n < 7 {
        let k = decimal_chars(n as u64);
        proof {
            reveal_strlit("");
            assert(""@ + k@ == k@);
        }
        concat3("", k, "d ago")
    } else {
        d.format_ymd()
    }
}

/// Short label for the due date `due`, relative to the machine's today.
pub fn label(due: Date) -> (res: String)
    ensures
        exists|t: Date| res@ == label_text(due@, t@),
{
    let t = today();
    label_from(due, t)
}

/// Short label for the past date `d`, relative to the machine's today.
pub fn ago(d: Date) -> (res: String)
    ensures
        exists|t: Date| res@ == ago_text(d@, t@),
{
    let t = today();
    ago_from(d, t)
}

/// Today's date on this machine's clock and in its time zone: chrono's
/// `Local::now().date_naive()`. Nothing is claimed of which day it is.
#[verifier::external_body]
pub fn today() -> (res: Date) {
    Date { days: chrono::Local::now().date_naive().num_days_from_ce() }
}

/// `c` with an ASCII capital made small, as `char::to_ascii_lowercase`
/// does.
pub open spec fn ascii_lowercase(c: char) -> char {
    if 'A' <= c <= 'Z' {
        ((c as u32) + 32) as char
    } else {
        c
    }
}

/// `s` in lower case: `str::to_lowercase`. On text that is all ASCII, that
/// is each capital letter made small and every other character kept.
#[verifier::external_body]
pub(crate) fn lowercase(s: &str) -> (res: String)
    ensures
        res@ == spec_lowercase(s@),
        (forall|i: int| 0 <= i < s@.len() ==> (s@[i] as u32) < 128) ==> res@ == s@.map_values(
            |c: char| ascii_lowercase(c),
        ),
{
    s.to_lowercase()
}

/// The calendar day on which the moment `(secs, nanos)` falls at UTC offset
/// `offset`, as chrono's `DateTime::date_naive` finds it (none where chrono
/// cannot hold the moment or its local time).
pub uninterp spec fn spec_local_date(secs: int, nanos: int, offset: int) -> Option<int>;

/// The calendar day on which the moment `s` falls on its own clock: the UTC
/// time from chrono's `DateTime::from_timestamp` moved by the offset with
/// `NaiveDateTime::checked_add_offset`, or `None` when chrono cannot hold the
/// moment or its local time. Its result is claimed to be the named one of
/// `s`, nothing more.
#[verifier::external_body]
pub(crate) fn local_date(s: Stamp) -> (res: Option<Date>)
    ensures
        res matches Some(d) ==> spec_local_date(s.secs as int, s.nanos as int, s.offset as int)
            == Some(d@),
        res is None ==> spec_local_date(s.secs as int, s.nanos as int, s.offset as int) is None,
{
    match (chrono::DateTime::from_timestamp(s.secs, s.nanos), chrono::FixedOffset::east_opt(s.offset)) {
        (Some(utc), Some(off)) => match utc.naive_utc().checked_add_offset(off) {
            Some(local) => Some(Date { days: local.date().num_days_from_ce() }),
            None => None,
        },
        _ => None,
    }
}

} // verus!
