use vstd::prelude::*;
use vstd::string::StringExecFns;

verus! {

/// A year is a leap year when divisible by four but not by one hundred, or
/// divisible by four hundred.
pub open spec fn leap_year(y: int) -> bool {
    (y % 4 == 0 && y % 100 != 0) || y % 400 == 0
}

/// How many days the given year has.
pub open spec fn year_days(y: int) -> int {
    if leap_year(y) {
        366
    } else {
        365
    }
}

/// How many days the given month of the given year has. Month numbers
/// outside 1 through 12 never arise; any value keeps the function total.
pub open spec fn month_days(m: int, y: int) -> int {
    if m == 2 {
        if leap_year(y) {
            29
        } else {
            28
        }
    } else if m == 4 || m == 6 || m == 9 || m == 11 {
        30
    } else {
        31
    }
}

/// The year that `days` whole days after the start of year `y` fall in,
/// with the days left over within that year.
pub open spec fn civil_year(y: int, days: nat) -> (int, nat)
    decreases days,
{
    if days < year_days(y) {
        (y, days)
    } else {
        civil_year(y + 1, (days - year_days(y)) as nat)
    }
}

/// The month that `days` whole days after the start of month `m` of year
/// `y` fall in, with the days left over within that month.
pub open spec fn civil_month(m: int, y: int, days: nat) -> (int, nat)
    decreases days,
{
    if days < month_days(m, y) {
        (m, days)
    } else {
        civil_month(m + 1, y, (days - month_days(m, y)) as nat)
    }
}

/// The days of the months from `m` through December of year `y`.
pub open spec fn months_rest(m: int, y: int) -> int
    decreases 13 - m,
{
    if m > 12 || m < 1 {
        0
    } else {
        month_days(m, y) + months_rest(m + 1, y)
    }
}

/// The twelve months together make up the year.
pub proof fn lemma_months_in_year(y: int)
    ensures
        months_rest(1, y) == year_days(y),
{
    reveal_with_fuel(months_rest, 13);
}

/// Year extraction never runs past its remainder: the days left over are
/// fewer than the found year holds, and the year never goes backwards.
pub proof fn lemma_civil_year_rem(y: int, days: nat)
    ensures
        civil_year(y, days).1 < year_days(civil_year(y, days).0),
        civil_year(y, days).0 >= y,
    decreases days,
{
    if days >= year_days(y) {
        lemma_civil_year_rem(y + 1, (days - year_days(y)) as nat);
    }
}

/// Month extraction stays within the calendar: starting at month `m` with
/// fewer days than the months through December hold, it ends on a month no
/// later than December with fewer days left than that month holds.
pub proof fn lemma_civil_month_ranges(m: int, y: int, days: nat)
    requires
        1 <= m <= 12,
        days < months_rest(m, y),
    ensures
        m <= civil_month(m, y, days).0 <= 12,
        civil_month(m, y, days).1 < month_days(civil_month(m, y, days).0, y),
    decreases days,
{
    if days >= month_days(m, y) {
        assert(months_rest(13, y) == 0);
        lemma_civil_month_ranges(m + 1, y, (days - month_days(m, y)) as nat);
    }
}

/// Every civil time the converter derives lies in its calendar range: the
/// year is at least 1970, the month between 1 and 12, the days left over
/// fewer than that month holds, the hour below 24, minute and second below
/// 60.
pub proof fn lemma_civil_time_ranges(epoch: nat)
    ensures
        ({
            let days = epoch / 86400;
            let yr = civil_year(1970, days);
            let mr = civil_month(1, yr.0, yr.1);
            &&& yr.0 >= 1970
            &&& 1 <= mr.0 <= 12
            &&& mr.1 < month_days(mr.0, yr.0)
            &&& (epoch % 86400) / 3600 < 24
            &&& ((epoch % 86400) % 3600) / 60 < 60
            &&& ((epoch % 86400) % 3600) % 60 < 60
        }),
{
    let days = epoch / 86400;
    lemma_civil_year_rem(1970, days);
    let yr = civil_year(1970, days);
    lemma_months_in_year(yr.0);
    lemma_civil_month_ranges(1, yr.0, yr.1);
}

/// The character of one decimal digit.
pub open spec fn dec_digit(d: int) -> char {
    if d == 0 {
        '0'
    } else if d == 1 {
        '1'
    } else if d == 2 {
        '2'
    } else if d == 3 {
        '3'
    } else if d == 4 {
        '4'
    } else if d == 5 {
        '5'
    } else if d == 6 {
        '6'
    } else if d == 7 {
        '7'
    } else if d == 8 {
        '8'
    } else {
        '9'
    }
}

/// The decimal digits of `n`, most significant first, with no leading
/// zeros except on zero itself.
pub open spec fn dec_str(n: nat) -> Seq<char>
    decreases n,
{
    if n < 10 {
        seq![dec_digit(n as int)]
    } else {
        dec_str(n / 10).push(dec_digit((n % 10) as int))
    }
}

/// Two decimal digits, zero-padded.
pub open spec fn two_digits(n: int) -> Seq<char> {
    seq![dec_digit(n / 10), dec_digit(n % 10)]
}

/// The rendered `DD.MM.YYYY HH:MM:SS` form of a civil time: day, month,
/// hour, minute and second zero-padded to two digits, the year at its
/// natural width.
pub open spec fn time_text(
    day: int,
    month: int,
    year: nat,
    hour: int,
    minute: int,
    second: int,
) -> Seq<char> {
    two_digits(day) + seq!['.'] + two_digits(month) + seq!['.'] + dec_str(year) + seq![' ']
        + two_digits(hour) + seq![':'] + two_digits(minute) + seq![':'] + two_digits(second)
}

/// The wall-clock text for `epoch` seconds after the start of 1970: whole
/// days are peeled off year by year from 1970 and then month by month, and
/// the remainder of the day splits into hours, minutes and seconds.
pub open spec fn civil_text(epoch: nat) -> Seq<char> {
    let days = epoch / 86400;
    let rest = epoch % 86400;
    let hour = rest / 3600;
    let minute = (rest % 3600) / 60;
    let second = (rest % 3600) % 60;
    let yr = civil_year(1970, days);
    let mr = civil_month(1, yr.0, yr.1);
    time_text(mr.1 as int + 1, mr.0, yr.0 as nat, hour as int, minute as int, second as int)
}

/// One decimal digit as a string slice.
pub fn digit_str(d: u64) -> (r: &'static str)
    requires
        d < 10,
    ensures
        r@ == seq![dec_digit(d as int)],
{
    proof {
        reveal_strlit("0");
        reveal_strlit("1");
        reveal_strlit("2");
        reveal_strlit("3");
        reveal_strlit("4");
        reveal_strlit("5");
        reveal_strlit("6");
        reveal_strlit("7");
        reveal_strlit("8");
        reveal_strlit("9");
        assert("0"@ =~= seq!['0']);
        assert("1"@ =~= seq!['1']);
        assert("2"@ =~= seq!['2']);
        assert("3"@ =~= seq!['3']);
        assert("4"@ =~= seq!['4']);
        assert("5"@ =~= seq!['5']);
        assert("6"@ =~= seq!['6']);
        assert("7"@ =~= seq!['7']);
        assert("8"@ =~= seq!['8']);
        assert("9"@ =~= seq!['9']);
    }
    if d == 0 {
        "0"
    } else if d == 1 {
        "1"
    } else if d == 2 {
        "2"
    } else if d == 3 {
        "3"
    } else if d == 4 {
        "4"
    } else if d == 5 {
        "5"
    } else if d == 6 {
        "6"
    } else if d == 7 {
        "7"
    } else if d == 8 {
        "8"
    } else {
        "9"
    }
}

/// Append the decimal form of `n`.
pub fn push_decimal(s: &mut String, n: u64)
    ensures
        final(s)@ == old(s)@ + dec_str(n as nat),
    decreases n,
{
    if n < 10 {
        s.append(digit_str(n));
        proof {
            assert(old(s)@ + seq![dec_digit(n as int)] =~= old(s)@ + dec_str(n as nat));
        }
    } else {
        push_decimal(s, n / 10);
        s.append(digit_str(n % 10));
        proof {
            assert((old(s)@ + dec_str((n / 10) as nat)) + seq![dec_digit((n % 10) as int)] =~= old(
                s,
            )@ + dec_str(n as nat));
        }
    }
}

/// Append `n` as exactly two decimal digits, zero-padded.
pub fn push_two_digits(s: &mut String, n: u64)
    requires
        n < 100,
    ensures
        final(s)@ == old(s)@ + two_digits(n as int),
{
    s.append(digit_str(n / 10));
    s.append(digit_str(n % 10));
    proof {
        assert((old(s)@ + seq![dec_digit(n as int / 10)]) + seq![dec_digit(n as int % 10)] =~= old(
            s,
        )@ + two_digits(n as int));
    }
}

} // verus!
