//! Partition resolution: mapping an epoch timestamp to the canonical
//! `YYYY-MM-DD` key (UTC, proleptic Gregorian calendar) of its daily
//! partition.
//!
//! The calendar model: `date_to_day_number` counts the days from 1970-01-01
//! to a calendar date, and `civil_of_day` recovers the calendar date of a day
//! number by stepping through years and months. `lemma_civil_of_day_correct`
//! ties the two together: `civil_of_day` is a right inverse of
//! `date_to_day_number`.

use vstd::prelude::*;
use vstd::string::StringExecFns;

verus! {

/// Seconds in one UTC day.
pub const SECONDS_PER_DAY: u64 = 86400;

/// Leap years of the proleptic Gregorian calendar.
pub open spec fn is_leap_year(y: int) -> bool {
    y % 4 == 0 && (y % 100 != 0 || y % 400 == 0)
}

pub open spec fn days_in_year(y: int) -> int {
    if is_leap_year(y) {
        366
    } else {
        365
    }
}

pub open spec fn days_in_month(y: int, m: int) -> int {
    if m == 2 {
        if is_leap_year(y) {
            29
        } else {
            28
        }
    } else if m == 4 || m == 6 || m == 9 || m == 11 {
        30
    } else {
        31
    }
}

/// Days from 1970-01-01 to `y`-01-01.
pub open spec fn days_before_year(y: int) -> int
    decreases y - 1970 when y >= 1970
{
    if y <= 1970 {
        0
    } else {
        days_before_year(y - 1) + days_in_year(y - 1)
    }
}

/// Days from `y`-01-01 to the first day of month `m` of year `y`.
pub open spec fn days_before_month(y: int, m: int) -> int
    decreases m when m >= 1
{
    if m <= 1 {
        0
    } else {
        days_before_month(y, m - 1) + days_in_month(y, m - 1)
    }
}

/// A calendar date this store can name: 1970 or later.
pub open spec fn valid_date(y: int, m: int, d: int) -> bool {
    &&& y >= 1970
    &&& 1 <= m <= 12
    &&& 1 <= d <= days_in_month(y, m)
}

/// The day number (days since 1970-01-01) of the date `y`-`m`-`d`.
pub open spec fn date_to_day_number(y: int, m: int, d: int) -> int {
    days_before_year(y) + days_before_month(y, m) + d - 1
}

/// The year that holds day `rem` counted from `y`-01-01, with the remaining
/// offset into that year.
pub open spec fn year_of_day(y: int, rem: int) -> (int, int)
    decreases rem when rem >= 0
{
    if rem < days_in_year(y) {
        (y, rem)
    } else {
        year_of_day(y + 1, rem - days_in_year(y))
    }
}

/// The month of year `y` that holds day `rem` counted from the first of
/// month `m`, with the remaining offset into that month.
pub open spec fn month_of_day(y: int, m: int, rem: int) -> (int, int)
    decreases 12 - m when 1 <= m <= 12
{
    if m >= 12 || rem < days_in_month(y, m) {
        (m, rem)
    } else {
        month_of_day(y, m + 1, rem - days_in_month(y, m))
    }
}

/// The calendar date (year, month, day) of a day number.
pub open spec fn civil_of_day(day: int) -> (int, int, int) {
    let (y, rem) = year_of_day(1970, day);
    let (m, rem2) = month_of_day(y, 1, rem);
    (y, m, rem2 + 1)
}

/// A year's months sum to the year's length.
proof fn lemma_year_splits_into_months(y: int)
    ensures
        days_before_month(y, 13) == days_in_year(y),
{
    reveal_with_fuel(days_before_month, 13);
}

/// Day counts from 1970 grow by at least 365 per year.
proof fn lemma_days_before_year_lower(y: int)
    requires
        y >= 1970,
    ensures
        days_before_year(y) >= 365 * (y - 1970),
    decreases y - 1970,
{
    if y > 1970 {
        lemma_days_before_year_lower(y - 1);
    }
}

proof fn lemma_year_of_day_correct(y: int, rem: int)
    requires
        y >= 1970,
        rem >= 0,
    ensures
        ({
            let (y2, r2) = year_of_day(y, rem);
            &&& y2 >= y
            &&& 0 <= r2 < days_in_year(y2)
            &&& days_before_year(y2) + r2 == days_before_year(y) + rem
        }),
    decreases rem,
{
    if rem >= days_in_year(y) {
        lemma_year_of_day_correct(y + 1, rem - days_in_year(y));
    }
}

proof fn lemma_month_of_day_correct(y: int, m: int, rem: int)
    requires
        1 <= m <= 12,
        0 <= rem,
        days_before_month(y, m) + rem < days_in_year(y),
    ensures
        ({
            let (m2, r2) = month_of_day(y, m, rem);
            &&& 1 <= m2 <= 12
            &&& 0 <= r2 < days_in_month(y, m2)
            &&& days_before_month(y, m2) + r2 == days_before_month(y, m) + rem
        }),
    decreases 12 - m,
{
    lemma_year_splits_into_months(y);
    if !(m >= 12 || rem < days_in_month(y, m)) {
        lemma_month_of_day_correct(y, m + 1, rem - days_in_month(y, m));
    }
}

/// `civil_of_day` names the date whose day number is the given day: stepping
/// through years and months inverts the day count.
pub proof fn lemma_civil_of_day_correct(day: int)
    requires
        day >= 0,
    ensures
        ({
            let (y, m, d) = civil_of_day(day);
            &&& valid_date(y, m, d)
            &&& date_to_day_number(y, m, d) == day
        }),
{
    lemma_year_of_day_correct(1970, day);
    let (y, rem) = year_of_day(1970, day);
    lemma_month_of_day_correct(y, 1, rem);
}

fn days_in_year_x(y: u64) -> (r: u64)
    ensures
        r == days_in_year(y as int),
{
    if y % 4 == 0 && (y % 100 != 0 || y % 400 == 0) {
        366
    } else {
        365
    }
}

fn days_in_month_x(y: u64, m: u64) -> (r: u64)
    ensures
        r == days_in_month(y as int, m as int),
{
    if m == 2 {
        if y % 4 == 0 && (y % 100 != 0 || y % 400 == 0) {
            29
        } else {
            28
        }
    } else if m == 4 || m == 6 || m == 9 || m == 11 {
        30
    } else {
        31
    }
}

/// The calendar date of a day number, computed by stepping through years and
/// months exactly as `civil_of_day` counts them.
fn civil_from_day(day: u64) -> (r: (u64, u64, u64))
    ensures
        (r.0 as int, r.1 as int, r.2 as int) == civil_of_day(day as int),
        valid_date(r.0 as int, r.1 as int, r.2 as int),
        date_to_day_number(r.0 as int, r.1 as int, r.2 as int) == day as int,
{
    let mut y: u64 = 1970;
    let mut rem: u64 = day;
    let mut diy: u64 = days_in_year_x(y);
    while rem >= diy
        invariant
            1970 <= y,
            rem <= day,
            diy == days_in_year(y as int),
            days_before_year(y as int) + rem == day,
            year_of_day(1970, day as int) == year_of_day(y as int, rem as int),
        decreases rem,
    {
        proof {
            lemma_days_before_year_lower(y as int);
            assert(365 * (y - 1970) <= u64::MAX ==> y - 1970 <= u64::MAX) by (nonlinear_arith);
        }
        rem = rem - diy;
        y = y + 1;
        diy = days_in_year_x(y);
    }
    let doy: Ghost<int> = Ghost(rem as int);
    let mut m: u64 = 1;
    let mut dim: u64 = days_in_month_x(y, m);
    proof {
        lemma_year_splits_into_months(y as int);
    }
    while rem >= dim && m < 12
        invariant
            1 <= m <= 12,
            dim == days_in_month(y as int, m as int),
            days_before_month(y as int, m as int) + rem == doy@,
            doy@ < days_in_year(y as int),
            days_before_month(y as int, 13) == days_in_year(y as int),
            month_of_day(y as int, 1, doy@) == month_of_day(y as int, m as int, rem as int),
        decreases 12 - m,
    {
        rem = rem - dim;
        m = m + 1;
        dim = days_in_month_x(y, m);
    }
    let d: u64 = rem + 1;
    proof {
        if m == 12 && rem >= dim {
            assert(days_before_month(y as int, 13) == days_before_month(y as int, 12)
                + days_in_month(y as int, 12));
            assert(false);
        }
        assert(month_of_day(y as int, m as int, rem as int) == (m as int, rem as int));
        lemma_year_of_day_correct(1970, day as int);
        lemma_month_of_day_correct(y as int, 1, doy@);
    }
    (y, m, d)
}

/// The character of one decimal digit.
pub open spec fn digit_char(d: int) -> char {
    if d == 0 {
        '0'
    } else if d == 1 {
        '1'
    } else if d == 2 {
        '2'
    } else if d == 3 {
        '3'
    } else if d == 4 {
        '4'
    } else if d == 5 {
        '5'
    } else if d == 6 {
        '6'
    } else if d == 7 {
        '7'
    } else if d == 8 {
        '8'
    } else {
        '9'
    }
}

/// The decimal digits of `n`, most significant first.
pub open spec fn dec_digits(n: int) -> Seq<char>
    decreases n when n >= 0
{
    if n < 10 {
        seq![digit_char(n)]
    } else {
        dec_digits(n / 10).push(digit_char(n % 10))
    }
}

/// `t` left-padded with '0' to at least width `w`.
pub open spec fn pad_left(t: Seq<char>, w: int) -> Seq<char>
    decreases w - t.len()
{
    if t.len() >= w {
        t
    } else {
        pad_left(seq!['0'] + t, w)
    }
}

/// The canonical partition key of the date `y`-`m`-`d`: zero-padded
/// `YYYY-MM-DD`.
pub open spec fn date_string(y: int, m: int, d: int) -> Seq<char> {
    pad_left(dec_digits(y), 4) + seq!['-'] + pad_left(dec_digits(m), 2) + seq!['-'] + pad_left(
        dec_digits(d),
        2,
    )
}

/// The canonical partition key of a day number.
pub open spec fn partition_key_for_day(day: int) -> Seq<char> {
    let (y, m, d) = civil_of_day(day);
    date_string(y, m, d)
}

/// The UTC day number a timestamp falls on.
pub open spec fn day_of_timestamp(t: u64) -> int {
    t as int / (SECONDS_PER_DAY as int)
}

fn digit_str(d: u64) -> (r: &'static str)
    requires
        d < 10,
    ensures
        r@ == seq![digit_char(d as int)],
{
    proof {
        reveal_strlit("0");
        reveal_strlit("1");
        reveal_strlit("2");
        reveal_strlit("3");
        reveal_strlit("4");
        reveal_strlit("5");
        reveal_strlit("6");
        reveal_strlit("7");
        reveal_strlit("8");
        reveal_strlit("9");
        assert("0"@ =~= seq![digit_char(0)]);
        assert("1"@ =~= seq![digit_char(1)]);
        assert("2"@ =~= seq![digit_char(2)]);
        assert("3"@ =~= seq![digit_char(3)]);
        assert("4"@ =~= seq![digit_char(4)]);
        assert("5"@ =~= seq![digit_char(5)]);
        assert("6"@ =~= seq![digit_char(6)]);
        assert("7"@ =~= seq![digit_char(7)]);
        assert("8"@ =~= seq![digit_char(8)]);
        assert("9"@ =~= seq![digit_char(9)]);
    }
    if d == 0 {
        "0"
    } else if d == 1 {
        "1"
    } else if d == 2 {
        "2"
    } else if d == 3 {
        "3"
    } else if d == 4 {
        "4"
    } else if d == 5 {
        "5"
    } else if d == 6 {
        "6"
    } else if d == 7 {
        "7"
    } else if d == 8 {
        "8"
    } else {
        "9"
    }
}

/// Appends the decimal digits of `n` to `s`.
fn push_digits(s: &mut String, n: u64)
    ensures
        final(s)@ == old(s)@ + dec_digits(n as int),
    decreases n,
{
    if n < 10 {
        s.append(digit_str(n));
    } else {
        push_digits(s, n / 10);
        s.append(digit_str(n % 10));
        proof {
            assert(old(s)@ + dec_digits(n as int) =~= (old(s)@ + dec_digits(n as int / 10)) + seq![
                digit_char(n as int % 10),
            ]);
        }
    }
}

/// How many digits a number has.
proof fn lemma_dec_digits_len(n: int)
    requires
        n >= 0,
    ensures
        dec_digits(n).len() >= 1,
        n < 10 ==> dec_digits(n).len() == 1,
        10 <= n < 100 ==> dec_digits(n).len() == 2,
        n >= 10 ==> dec_digits(n).len() >= 2,
        n >= 100 ==> dec_digits(n).len() >= 3,
        n >= 1000 ==> dec_digits(n).len() >= 4,
    decreases n,
{
    if n >= 10 {
        lemma_dec_digits_len(n / 10);
    }
}

/// Padding a sequence already at width leaves it unchanged; padding a
/// one-character sequence to width two prepends one zero.
proof fn lemma_pad_left_small(t: Seq<char>)
    ensures
        t.len() >= 4 ==> pad_left(t, 4) == t,
        t.len() >= 2 ==> pad_left(t, 2) == t,
        t.len() == 1 ==> pad_left(t, 2) == seq!['0'] + t,
{
    reveal_with_fuel(pad_left, 3);
}

/// Builds the zero-padded `YYYY-MM-DD` key of a date.
fn fmt_date(y: u64, m: u64, d: u64) -> (r: String)
    requires
        1970 <= y,
        1 <= m <= 12,
        1 <= d <= 31,
    ensures
        r@ == date_string(y as int, m as int, d as int),
{
    let mut s = String::new();
    push_digits(&mut s, y);
    s.append("-");
    if m < 10 {
        s.append("0");
    }
    push_digits(&mut s, m);
    s.append("-");
    if d < 10 {
        s.append("0");
    }
    push_digits(&mut s, d);
    proof {
        reveal_strlit("-");
        reveal_strlit("0");
        lemma_dec_digits_len(y as int);
        lemma_dec_digits_len(m as int);
        lemma_dec_digits_len(d as int);
        lemma_pad_left_small(dec_digits(y as int));
        lemma_pad_left_small(dec_digits(m as int));
        lemma_pad_left_small(dec_digits(d as int));
        assert("-"@ =~= seq!['-']);
        assert("0"@ =~= seq!['0']);
        assert(s@ =~= date_string(y as int, m as int, d as int));
    }
    s
}

/// A resolved partition key: the canonical name of one UTC calendar day's
/// table.
pub struct PartitionKey {
    key: String,
}

impl View for PartitionKey {
    type V = Seq<char>;

    closed spec fn view(&self) -> Seq<char> {
        self.key@
    }
}

impl PartitionKey {
    /// A partition key is never the empty string: the storage engine refuses
    /// an empty table name.
    #[verifier::type_invariant]
    pub open spec fn wf(self) -> bool {
        self@.len() > 0
    }

    /// The key as a string slice, e.g. for display or storage.
    pub fn as_str(&self) -> (r: &str)
        ensures
            r@ == self@,
    {
        self.key.as_str()
    }
}

/// Resolves the daily partition of an epoch timestamp: the key of the UTC
/// calendar day the timestamp falls on, as zero-padded `YYYY-MM-DD`. Total:
/// every timestamp resolves, with no side effect.
pub fn resolve_partition(timestamp: u64) -> (r: PartitionKey)
    ensures
        r@ == partition_key_for_day(day_of_timestamp(timestamp)),
{
    let day: u64 = timestamp / SECONDS_PER_DAY;
    let (y, m, d) = civil_from_day(day);
    PartitionKey { key: fmt_date(y, m, d) }
}

/// The numeric value of one digit character.
spec fn digit_val(c: char) -> int {
    if c == '0' {
        0
    } else if c == '1' {
        1
    } else if c == '2' {
        2
    } else if c == '3' {
        3
    } else if c == '4' {
        4
    } else if c == '5' {
        5
    } else if c == '6' {
        6
    } else if c == '7' {
        7
    } else if c == '8' {
        8
    } else if c == '9' {
        9
    } else {
        0
    }
}

/// The number a digit sequence denotes, read most significant first.
spec fn seq_val(t: Seq<char>) -> int
    decreases t.len(),
{
    if t.len() == 0 {
        0
    } else {
        seq_val(t.drop_last()) * 10 + digit_val(t.last())
    }
}

/// Reading the decimal digits of `n` back gives `n`.
proof fn lemma_seq_val_of_dec_digits(n: int)
    requires
        n >= 0,
    ensures
        seq_val(dec_digits(n)) == n,
    decreases n,
{
    if n < 10 {
        assert(seq![digit_char(n)].drop_last() =~= Seq::<char>::empty());
        assert(seq_val(Seq::<char>::empty()) == 0);
    } else {
        lemma_seq_val_of_dec_digits(n / 10);
        let t = dec_digits(n / 10);
        assert(t.push(digit_char(n % 10)).drop_last() =~= t);
        assert(t.push(digit_char(n % 10)).last() == digit_char(n % 10));
        vstd::arithmetic::div_mod::lemma_fundamental_div_mod(n, 10);
    }
}

/// A leading zero does not change the value a digit sequence denotes.
proof fn lemma_seq_val_zero_prefix(t: Seq<char>)
    ensures
        seq_val(seq!['0'] + t) == seq_val(t),
    decreases t.len(),
{
    if t.len() == 0 {
        assert(seq!['0'] + t =~= seq!['0']);
        assert((seq!['0']).drop_last() =~= Seq::<char>::empty());
        assert(seq_val(Seq::<char>::empty()) == 0);
    } else {
        lemma_seq_val_zero_prefix(t.drop_last());
        assert((seq!['0'] + t).drop_last() =~= seq!['0'] + t.drop_last());
        assert((seq!['0'] + t).last() == t.last());
    }
}

/// Padding keeps the denoted value and yields length `max(t.len(), w)`.
proof fn lemma_pad_left_props(t: Seq<char>, w: int)
    ensures
        seq_val(pad_left(t, w)) == seq_val(t),
        pad_left(t, w).len() == if t.len() >= w {
            t.len() as int
        } else {
            w
        },
    decreases w - t.len(),
{
    if t.len() < w {
        lemma_seq_val_zero_prefix(t);
        lemma_pad_left_props(seq!['0'] + t, w);
    }
}

/// Distinct dates format as distinct partition keys.
proof fn lemma_date_string_injective(y1: int, m1: int, d1: int, y2: int, m2: int, d2: int)
    requires
        1970 <= y1 && 1 <= m1 <= 12 && 1 <= d1 <= 31,
        1970 <= y2 && 1 <= m2 <= 12 && 1 <= d2 <= 31,
        date_string(y1, m1, d1) == date_string(y2, m2, d2),
    ensures
        y1 == y2 && m1 == m2 && d1 == d2,
{
    let a1 = pad_left(dec_digits(y1), 4);
    let b1 = pad_left(dec_digits(m1), 2);
    let c1 = pad_left(dec_digits(d1), 2);
    let a2 = pad_left(dec_digits(y2), 4);
    let b2 = pad_left(dec_digits(m2), 2);
    let c2 = pad_left(dec_digits(d2), 2);
    let s1 = date_string(y1, m1, d1);
    let s2 = date_string(y2, m2, d2);
    lemma_dec_digits_len(y1);
    lemma_dec_digits_len(m1);
    lemma_dec_digits_len(d1);
    lemma_dec_digits_len(y2);
    lemma_dec_digits_len(m2);
    lemma_dec_digits_len(d2);
    lemma_pad_left_props(dec_digits(y1), 4);
    lemma_pad_left_props(dec_digits(m1), 2);
    lemma_pad_left_props(dec_digits(d1), 2);
    lemma_pad_left_props(dec_digits(y2), 4);
    lemma_pad_left_props(dec_digits(m2), 2);
    lemma_pad_left_props(dec_digits(d2), 2);
    lemma_seq_val_of_dec_digits(y1);
    lemma_seq_val_of_dec_digits(m1);
    lemma_seq_val_of_dec_digits(d1);
    lemma_seq_val_of_dec_digits(y2);
    lemma_seq_val_of_dec_digits(m2);
    lemma_seq_val_of_dec_digits(d2);
    assert(s1.len() == a1.len() + 6);
    assert(s2.len() == a2.len() + 6);
    let n = a1.len() as int;
    assert forall|i: int| 0 <= i < n implies a1[i] == a2[i] by {
        assert(s1[i] == a1[i]);
        assert(s2[i] == a2[i]);
    }
    assert(a1 =~= a2);
    assert forall|i: int| 0 <= i < 2 implies b1[i] == b2[i] by {
        assert(s1[n + 1 + i] == b1[i]);
        assert(s2[n + 1 + i] == b2[i]);
    }
    assert(b1 =~= b2);
    assert forall|i: int| 0 <= i < 2 implies c1[i] == c2[i] by {
        assert(s1[n + 4 + i] == c1[i]);
        assert(s2[n + 4 + i] == c2[i]);
    }
    assert(c1 =~= c2);
}

/// Two timestamps on the same UTC calendar day resolve to the same partition
/// key.
pub proof fn lemma_same_day_same_partition(t1: u64, t2: u64)
    requires
        day_of_timestamp(t1) == day_of_timestamp(t2),
    ensures
        partition_key_for_day(day_of_timestamp(t1)) == partition_key_for_day(day_of_timestamp(t2)),
{
}

/// Two timestamps on distinct UTC calendar days — in particular two that
/// straddle a day boundary — resolve to distinct partition keys.
pub proof fn lemma_distinct_day_distinct_partition(t1: u64, t2: u64)
    requires
        day_of_timestamp(t1) != day_of_timestamp(t2),
    ensures
        partition_key_for_day(day_of_timestamp(t1)) != partition_key_for_day(day_of_timestamp(t2)),
{
    let day1 = day_of_timestamp(t1);
    let day2 = day_of_timestamp(t2);
    lemma_civil_of_day_correct(day1);
    lemma_civil_of_day_correct(day2);
    let (y1, m1, d1) = civil_of_day(day1);
    let (y2, m2, d2) = civil_of_day(day2);
    if partition_key_for_day(day1) == partition_key_for_day(day2) {
        lemma_date_string_injective(y1, m1, d1, y2, m2, d2);
        assert(day1 == date_to_day_number(y1, m1, d1));
        assert(day2 == date_to_day_number(y2, m2, d2));
        assert(false);
    }
}

} // verus!

