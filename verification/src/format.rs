//! Number and field formatting used by the long listing: decimal numbers,
//! padding, permission strings, block counts and calendar dates.

use vstd::prelude::*;
use crate::text::push_char;

verus! {

/// The decimal digit for `d` (which is below ten).
pub open spec fn digit_char(d: int) -> char {
    if d == 0 {
        '0'
    } else if d == 1 {
        '1'
    } else if d == 2 {
        '2'
    } else if d == 3 {
        '3'
    } else if d == 4 {
        '4'
    } else if d == 5 {
        '5'
    } else if d == 6 {
        '6'
    } else if d == 7 {
        '7'
    } else if d == 8 {
        '8'
    } else {
        '9'
    }
}

/// The decimal notation of `n`, without sign or leading zeros.
pub open spec fn decimal(n: nat) -> Seq<char>
    decreases n,
{
    if n < 10 {
        seq![digit_char(n as int)]
    } else {
        decimal(n / 10).push(digit_char((n % 10) as int))
    }
}

fn digit(d: u64) -> (c: char)
    requires
        d < 10,
    ensures
        c == digit_char(d as int),
{
    if d == 0 {
        '0'
    } else if d == 1 {
        '1'
    } else if d == 2 {
        '2'
    } else if d == 3 {
        '3'
    } else if d == 4 {
        '4'
    } else if d == 5 {
        '5'
    } else if d == 6 {
        '6'
    } else if d == 7 {
        '7'
    } else if d == 8 {
        '8'
    } else {
        '9'
    }
}

/// `n` written in decimal.
pub fn decimal_string(n: u64) -> (res: String)
    ensures
        res@ == decimal(n as nat),
    decreases n,
{
    if n < 10 {
        let mut s = String::new();
        push_char(&mut s, digit(n));
        s
    } else {
        let mut s = decimal_string(n / 10);
        push_char(&mut s, digit(n % 10));
        s
    }
}

/// `s` right-aligned in a field of `width` characters, filled on the left
/// with `fill`; a longer `s` is kept whole.
pub open spec fn pad_left(s: Seq<char>, width: nat, fill: char) -> Seq<char> {
    if s.len() >= width {
        s
    } else {
        Seq::new((width - s.len()) as nat, |_i: int| fill) + s
    }
}

/// `s` right-aligned in a field of `width` characters.
pub fn padded(s: &str, width: usize, fill: char) -> (res: String)
    ensures
        res@ == pad_left(s@, width as nat, fill),
{
    let n = s.unicode_len();
    let mut out = String::new();
    let mut i: usize = n;
    while i < width
        invariant
            n == s@.len(),
            n <= i,
            i <= width || n >= width,
            n >= width ==> i == n,
            out@ == Seq::new((i - n) as nat, |_i: int| fill),
        decreases width - i,
    {
        push_char(&mut out, fill);
        proof {
            assert(out@ =~= Seq::new((i + 1 - n) as nat, |_i: int| fill));
        }
        i = i + 1;
    }
    out.append(s);
    proof {
        if n >= width {
            assert(out@ =~= s@);
        }
    }
    out
}

/// One `rwx` triplet: the three low bits of `mode >> shift`.
pub open spec fn rwx(mode: u32, shift: u32) -> Seq<char> {
    let bits = (mode >> shift) & 7u32;
    seq![
        if bits & 4u32 != 0 { 'r' } else { '-' },
        if bits & 2u32 != 0 { 'w' } else { '-' },
        if bits & 1u32 != 0 { 'x' } else { '-' },
    ]
}

/// `d` or `-` for the kind of file, then the owner, group and other
/// permission triplets of `mode`.
pub open spec fn permissions_text(mode: u32, is_dir: bool) -> Seq<char> {
    seq![if is_dir { 'd' } else { '-' }] + rwx(mode, 6) + rwx(mode, 3) + rwx(mode, 0)
}

fn push_rwx(perms: &mut String, mode: u32, shift: u32)
    requires
        shift <= 6,
    ensures
        final(perms)@ == old(perms)@ + rwx(mode, shift),
{
    let bits = (mode >> shift) & 0o7;
    push_char(perms, if bits & 0o4 != 0 { 'r' } else { '-' });
    push_char(perms, if bits & 0o2 != 0 { 'w' } else { '-' });
    push_char(perms, if bits & 0o1 != 0 { 'x' } else { '-' });
    proof {
        assert(perms@ =~= old(perms)@ + rwx(mode, shift));
    }
}

/// The ten-character permission column of a long listing.
pub fn format_permissions(mode: u32, is_dir: bool) -> (res: String)
    ensures
        res@ == permissions_text(mode, is_dir),
{
    let file_type = if is_dir {
        'd'
    } else {
        '-'
    };
    let mut perms = String::new();
    push_char(&mut perms, file_type);
    push_rwx(&mut perms, mode, 6);
    push_rwx(&mut perms, mode, 3);
    push_rwx(&mut perms, mode, 0);
    proof {
        assert(perms@ =~= permissions_text(mode, is_dir));
    }
    perms
}

/// The permission column depends on the nine permission bits alone.
pub proof fn lemma_permissions_only_low_bits(mode: u32, is_dir: bool)
    ensures
        permissions_text(mode, is_dir) == permissions_text(mode & 0o777u32, is_dir),
        permissions_text(mode, is_dir).len() == 10,
{
    assert(((mode & 0o777u32) >> 6u32) & 7u32 == (mode >> 6u32) & 7u32) by (bit_vector);
    assert(((mode & 0o777u32) >> 3u32) & 7u32 == (mode >> 3u32) & 7u32) by (bit_vector);
    assert(((mode & 0o777u32) >> 0u32) & 7u32 == (mode >> 0u32) & 7u32) by (bit_vector);
}

/// Whether any execute bit (owner, group or other) is set.
pub open spec fn mode_is_executable(mode: u32) -> bool {
    mode & 0o111u32 != 0
}

/// Whether any execute bit of `mode` is set.
pub fn is_executable(mode: u32) -> (res: bool)
    ensures
        res == mode_is_executable(mode),
{
    mode & 0o111 != 0
}

/// The number of 512-byte blocks that hold `size` bytes, rounded up.
pub fn file_size_blocks(size: u64) -> (res: u64)
    requires
        size + 511 <= u64::MAX,
    ensures
        res == (size + 511) / 512,
        res * 512 >= size,
        res * 512 < size + 512,
{
    (size + 511) / 512
}

/// The Gregorian leap-year rule.
pub open spec fn leap(year: int) -> bool {
    (year % 4 == 0 && year % 100 != 0) || year % 400 == 0
}

/// Whether `year` is a leap year of the Gregorian calendar.
pub fn is_leap_year(year: u64) -> (res: bool)
    ensures
        res == leap(year as int),
{
    (year % 4 == 0 && year % 100 != 0) || (year % 400 == 0)
}

pub open spec fn year_length(year: int) -> int {
    if leap(year) {
        366
    } else {
        365
    }
}

/// Days from 1 January 1970 to 1 January of `year` (from 1970 on).
pub open spec fn days_before_year(year: int) -> int
    decreases year - 1970,
{
    if year <= 1970 {
        0
    } else {
        days_before_year(year - 1) + year_length(year - 1)
    }
}

/// Days in month `m` (0 for January).
pub open spec fn month_length(m: int, is_leap: bool) -> int {
    if m == 1 {
        if is_leap {
            29
        } else {
            28
        }
    } else if m == 3 || m == 5 || m == 8 || m == 10 {
        30
    } else {
        31
    }
}

/// Days of the year before month `m` begins.
pub open spec fn days_before_month(m: int, is_leap: bool) -> int
    decreases m,
{
    if m <= 0 {
        0
    } else {
        days_before_month(m - 1, is_leap) + month_length(m - 1, is_leap)
    }
}

/// A moment given as calendar date and time of day (UTC).
/// `month` counts from 0 for January, `day` from 1.
#[derive(Debug)]
pub struct CivilTime {
    pub year: u64,
    pub month: usize,
    pub day: u64,
    pub hour: u64,
    pub minute: u64,
    pub second: u64,
}

/// `t` is the calendar date and time of `secs` seconds after the epoch.
pub open spec fn is_civil_time_of(secs: u64, t: CivilTime) -> bool {
    let days = secs / 86400;
    let tod = secs % 86400;
    let in_year = days - days_before_year(t.year as int);
    let lp = leap(t.year as int);
    &&& t.hour == tod / 3600
    &&& t.minute == (tod % 3600) / 60
    &&& t.second == tod % 60
    &&& t.year >= 1970
    &&& days_before_year(t.year as int) <= days
    &&& days < days_before_year(t.year as int) + year_length(t.year as int)
    &&& t.month < 12
    &&& days_before_month(t.month as int, lp) <= in_year
    &&& in_year < days_before_month(t.month as int, lp) + month_length(t.month as int, lp)
    &&& t.day == in_year - days_before_month(t.month as int, lp) + 1
}

/// The calendar date and time of `secs` seconds after the epoch.
pub open spec fn civil_time(secs: u64) -> CivilTime {
    choose|t: CivilTime| is_civil_time_of(secs, t)
}

proof fn lemma_days_before_year_monotone(a: int, b: int)
    requires
        1970 <= a <= b,
    ensures
        days_before_year(a) + (b - a) * 365 <= days_before_year(b),
    decreases b - a,
{
    if a < b {
        lemma_days_before_year_monotone(a, b - 1);
    }
}

proof fn lemma_days_before_month_monotone(a: int, b: int, lp: bool)
    requires
        0 <= a <= b,
    ensures
        days_before_month(a, lp) + (b - a) * 28 <= days_before_month(b, lp),
    decreases b - a,
{
    if a < b {
        lemma_days_before_month_monotone(a, b - 1, lp);
    }
}

proof fn lemma_year_is_twelve_months(lp: bool)
    ensures
        days_before_month(12, lp) == (if lp { 366int } else { 365int }),
{
    reveal_with_fuel(days_before_month, 13);
}

/// A moment has one calendar date and time.
pub proof fn lemma_civil_time_unique(secs: u64, t1: CivilTime, t2: CivilTime)
    requires
        is_civil_time_of(secs, t1),
        is_civil_time_of(secs, t2),
    ensures
        t1 == t2,
{
    let d = secs / 86400;
    let y1 = t1.year as int;
    let y2 = t2.year as int;
    if y1 < y2 {
        lemma_days_before_year_monotone(y1 + 1, y2);
    } else if y2 < y1 {
        lemma_days_before_year_monotone(y2 + 1, y1);
    }
    assert(y1 == y2);
    let lp = leap(y1);
    let m1 = t1.month as int;
    let m2 = t2.month as int;
    if m1 < m2 {
        lemma_days_before_month_monotone(m1 + 1, m2, lp);
    } else if m2 < m1 {
        lemma_days_before_month_monotone(m2 + 1, m1, lp);
    }
    assert(m1 == m2);
}

/// The calendar fields give back the moment they were computed from.
pub proof fn lemma_civil_time_reconstructs(secs: u64, t: CivilTime)
    requires
        is_civil_time_of(secs, t),
    ensures
        (days_before_year(t.year as int) + days_before_month(t.month as int, leap(t.year as int))
            + t.day - 1) * 86400 + t.hour * 3600 + t.minute * 60 + t.second == secs,
{
    let tod = secs % 86400;
    assert(tod == (tod / 3600) * 3600 + ((tod % 3600) / 60) * 60 + tod % 60) by (nonlinear_arith)
        requires
            0 <= tod,
    ;
    assert(secs == (secs / 86400) * 86400 + secs % 86400) by (nonlinear_arith);
}

fn year_days(year: u64) -> (res: u64)
    ensures
        res == year_length(year as int),
{
    if is_leap_year(year) {
        366
    } else {
        365
    }
}

fn month_days(m: usize, is_leap: bool) -> (res: u64)
    requires
        m < 12,
    ensures
        res == month_length(m as int, is_leap),
{
    if m == 1 {
        if is_leap {
            29
        } else {
            28
        }
    } else if m == 3 || m == 5 || m == 8 || m == 10 {
        30
    } else {
        31
    }
}

/// The calendar date and time (UTC) of `secs` seconds after 1970-01-01.
pub fn civil_from_secs(secs: u64) -> (res: CivilTime)
    ensures
        is_civil_time_of(secs, res),
        res == civil_time(secs),
{
    let time = secs % 86400;
    let hour = time / 3600;
    let min = (time % 3600) / 60;
    let sec = time % 60;
    let day = secs / 86400;
    let mut year: u64 = 1970;
    let mut days: u64 = day;
    while days >= year_days(year)
        invariant
            year >= 1970,
            days + days_before_year(year as int) == day,
            year - 1970 <= days_before_year(year as int),
            day == secs / 86400,
        decreases days,
    {
        days = days - year_days(year);
        year = year + 1;
    }
    let lp = is_leap_year(year);
    proof {
        lemma_year_is_twelve_months(lp);
    }
    let mut month: usize = 0;
    while days >= month_days(month, lp)
        invariant
            month < 12,
            days + days_before_month(month as int, lp) + days_before_year(year as int) == day,
            days + days_before_month(month as int, lp) < year_length(year as int),
            lp == leap(year as int),
            days_before_month(12, lp) == year_length(year as int),
        decreases 12 - month,
    {
        days = days - month_days(month, lp);
        month = month + 1;
        proof {
            if month == 12 {
                assert(false);
            }
        }
    }
    let res = CivilTime { year, month, day: days + 1, hour, minute: min, second: sec };
    proof {
        assert(is_civil_time_of(secs, res));
        let t = civil_time(secs);
        lemma_civil_time_unique(secs, res, t);
    }
    res
}

/// How many of the `n` years from `start` on are leap years.
pub open spec fn leap_years_in(start: int, n: nat) -> nat
    decreases n,
{
    if n == 0 {
        0
    } else {
        leap_years_in(start, (n - 1) as nat) + if leap(start + n - 1) {
            1nat
        } else {
            0nat
        }
    }
}

/// The leap-year rule repeats every 400 years.
pub proof fn lemma_leap_period(y: int)
    ensures
        leap(y + 400) == leap(y),
{
    assert((y + 400) % 4 == y % 4 && (y + 400) % 100 == y % 100 && (y + 400) % 400 == y % 400)
        by (nonlinear_arith);
}

proof fn lemma_leap_years_shift(y: int)
    ensures
        leap_years_in(y + 1, 400) == leap_years_in(y, 400),
{
    lemma_leap_years_split(y, 1, 399);
    lemma_leap_years_split(y + 1, 399, 1);
    lemma_leap_period(y);
    reveal_with_fuel(leap_years_in, 2);
}

proof fn lemma_leap_years_split(y: int, n: nat, m: nat)
    ensures
        leap_years_in(y, n + m) == leap_years_in(y, n) + leap_years_in(y + n, m),
    decreases m,
{
    if m != 0 {
        lemma_leap_years_split(y, n, (m - 1) as nat);
        assert(y + n + m - 1 == y + (n + m) - 1);
    }
}

proof fn lemma_leap_years_from_zero(n: nat)
    ensures
        leap_years_in(0, n) == (n + 3) / 4 - (n + 99) / 100 + (n + 399) / 400,
    decreases n,
{
    if n != 0 {
        let m = (n - 1) as int;
        lemma_leap_years_from_zero((n - 1) as nat);
        assert(((m + 4) / 4 - (m + 3) / 4 == (if m % 4 == 0 { 1int } else { 0int }))
            && ((m + 100) / 100 - (m + 99) / 100 == (if m % 100 == 0 { 1int } else { 0int }))
            && ((m + 400) / 400 - (m + 399) / 400 == (if m % 400 == 0 { 1int } else { 0int })))
            by (nonlinear_arith)
            requires
                m >= 0,
        ;
        assert(m % 100 == 0 ==> m % 4 == 0) by (nonlinear_arith);
        assert(m % 400 == 0 ==> m % 100 == 0) by (nonlinear_arith);
    }
}

/// Every 400 consecutive years (from year 0 on) hold 97 leap years.
pub proof fn lemma_leap_years_per_cycle(y: int)
    requires
        y >= 0,
    ensures
        leap_years_in(y, 400) == 97,
    decreases y,
{
    if y > 0 {
        lemma_leap_years_per_cycle(y - 1);
        lemma_leap_years_shift(y - 1);
    } else {
        lemma_leap_years_from_zero(400);
    }
}

/// The permission column, character by character: the kind of file, then
/// read, write and execute for the owner (mode bits 0o400, 0o200, 0o100),
/// the group (0o040, 0o020, 0o010) and others (0o004, 0o002, 0o001).
pub proof fn lemma_permission_columns(mode: u32, is_dir: bool)
    ensures
        permissions_text(mode, is_dir) == seq![
            if is_dir { 'd' } else { '-' },
            if mode & 0o400u32 != 0 { 'r' } else { '-' },
            if mode & 0o200u32 != 0 { 'w' } else { '-' },
            if mode & 0o100u32 != 0 { 'x' } else { '-' },
            if mode & 0o040u32 != 0 { 'r' } else { '-' },
            if mode & 0o020u32 != 0 { 'w' } else { '-' },
            if mode & 0o010u32 != 0 { 'x' } else { '-' },
            if mode & 0o004u32 != 0 { 'r' } else { '-' },
            if mode & 0o002u32 != 0 { 'w' } else { '-' },
            if mode & 0o001u32 != 0 { 'x' } else { '-' },
        ],
{
    assert(
        (((mode >> 6u32) & 7u32) & 4u32 != 0 <==> mode & 0o400u32 != 0)
        && (((mode >> 6u32) & 7u32) & 2u32 != 0 <==> mode & 0o200u32 != 0)
        && (((mode >> 6u32) & 7u32) & 1u32 != 0 <==> mode & 0o100u32 != 0)
        && (((mode >> 3u32) & 7u32) & 4u32 != 0 <==> mode & 0o040u32 != 0)
        && (((mode >> 3u32) & 7u32) & 2u32 != 0 <==> mode & 0o020u32 != 0)
        && (((mode >> 3u32) & 7u32) & 1u32 != 0 <==> mode & 0o010u32 != 0)
        && (((mode >> 0u32) & 7u32) & 4u32 != 0 <==> mode & 0o004u32 != 0)
        && (((mode >> 0u32) & 7u32) & 2u32 != 0 <==> mode & 0o002u32 != 0)
        && (((mode >> 0u32) & 7u32) & 1u32 != 0 <==> mode & 0o001u32 != 0)
    ) by (bit_vector);
    assert(permissions_text(mode, is_dir) =~= seq![
        if is_dir { 'd' } else { '-' },
        if mode & 0o400u32 != 0 { 'r' } else { '-' },
        if mode & 0o200u32 != 0 { 'w' } else { '-' },
        if mode & 0o100u32 != 0 { 'x' } else { '-' },
        if mode & 0o040u32 != 0 { 'r' } else { '-' },
        if mode & 0o020u32 != 0 { 'w' } else { '-' },
        if mode & 0o010u32 != 0 { 'x' } else { '-' },
        if mode & 0o004u32 != 0 { 'r' } else { '-' },
        if mode & 0o002u32 != 0 { 'w' } else { '-' },
        if mode & 0o001u32 != 0 { 'x' } else { '-' },
    ]);
}

/// The number a string of decimal digits stands for.
pub open spec fn digits_value(s: Seq<char>) -> int
    decreases s.len(),
{
    if s.len() == 0 {
        0
    } else {
        digits_value(s.drop_last()) * 10 + (s.last() as int - '0' as int)
    }
}

/// Decimal notation is faithful: every character is a digit `0`-`9`, the
/// digits read back as `n`, and there is no leading zero (except for `0`).
pub proof fn lemma_decimal_reads_back(n: nat)
    ensures
        forall|i: int|
            0 <= i < decimal(n).len() ==> '0' <= #[trigger] decimal(n)[i] && decimal(n)[i] <= '9',
        digits_value(decimal(n)) == n,
        decimal(n).len() > 0,
        decimal(n)[0] == '0' ==> n == 0,
    decreases n,
{
    let d = n % 10;
    assert(digit_char(d as int) as int == '0' as int + d);
    if n >= 10 {
        lemma_decimal_reads_back(n / 10);
        let s = decimal(n / 10);
        assert(decimal(n).drop_last() =~= s);
        assert forall|i: int| 0 <= i < decimal(n).len() implies '0' <= #[trigger] decimal(n)[i]
            && decimal(n)[i] <= '9' by {
            if i < s.len() {
                assert(decimal(n)[i] == s[i]);
            }
        }
        assert((n / 10) * 10 + n % 10 == n);
        assert(decimal(n)[0] == s[0]);
        assert(decimal(n).last() == digit_char(d as int));
        assert(digits_value(decimal(n)) == digits_value(s) * 10 + (digit_char(d as int) as int
            - '0' as int));
    } else {
        assert(decimal(n).drop_last() =~= Seq::<char>::empty());
        assert(digits_value(Seq::<char>::empty()) == 0);
        assert(decimal(n).last() == digit_char(d as int));
        assert(digits_value(decimal(n)) == digits_value(decimal(n).drop_last()) * 10 + (
        digit_char(d as int) as int - '0' as int));
    }
}

/// Padding right-aligns: the result is `width` long (or `s` itself when
/// `s` is at least that long), ends with `s`, and is `fill` before it.
pub proof fn lemma_pad_left(s: Seq<char>, width: nat, fill: char)
    ensures
        pad_left(s, width, fill).len() == if s.len() >= width { s.len() } else { width },
        pad_left(s, width, fill).skip(pad_left(s, width, fill).len() - s.len()) == s,
        forall|i: int|
            0 <= i < pad_left(s, width, fill).len() - s.len() ==> #[trigger] pad_left(s, width, fill)[i]
                == fill,
{
    let r = pad_left(s, width, fill);
    assert(r.skip(r.len() - s.len()) =~= s);
}

} // verus!
