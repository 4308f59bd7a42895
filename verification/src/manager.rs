//! The display rules of the dates web page: countdown texts, chip styles and
//! the checks on a new entry, over a `today` that the page reads from its clock.

use vstd::prelude::*;
use vstd::string::StringSliceAdditionalSpecFns;
use crate::calendar::{
    day_formula_fits, fits_i64, is_valid_date, julian_day, lemma_julian_day_order,
    lemma_small_day_formula_fits, lemma_ymd_number_order, to_julian_day,
};
use crate::dates::{is_date_key, is_date_key_text};
use crate::text::{
    all_digit_bytes, decimal, decimal_value, digits_value, lemma_decimal_spells, is_digit_byte, lemma_digits_value_bound,
    lemma_digits_value_concat, lemma_int_literal_bound, parse_i64_bytes, parsed_i64, pow10, push_decimal,
};

verus! {

/// The slices `[0..4]`, `[4..6]` and `[6..8]` of an 8-byte key that the parser
/// reaches fall on character boundaries.
pub open spec fn key_slices_on_boundaries(b: Seq<u8>) -> bool {
    b.len() == 8 ==> {
        &&& vstd::utf8::is_char_boundary(b, 4)
        &&& parsed_i64(b.subrange(0, 4)) is Some ==> vstd::utf8::is_char_boundary(b, 6)
    }
}

/// Year, month and day of an 8-byte key `YYYYMMDD`, each read as an integer literal.
pub open spec fn ymd_parts_of(b: Seq<u8>) -> Option<(i64, i64, i64)> {
    if b.len() != 8 {
        None
    } else {
        let y = parsed_i64(b.subrange(0, 4));
        let m = parsed_i64(b.subrange(4, 6));
        let d = parsed_i64(b.subrange(6, 8));
        if y is Some && m is Some && d is Some {
            Some((y->0, m->0, d->0))
        } else {
            None
        }
    }
}

/// Parses an 8-byte key `YYYYMMDD` into (year, month, day).
pub fn parse_ymd_parts(key: &str) -> (r: Option<(i64, i64, i64)>)
    requires
        key_slices_on_boundaries(key.spec_bytes()),
    ensures
        r == ymd_parts_of(key.spec_bytes()),
        r matches Some((y, m, d)) ==> -9999 <= y <= 9999 && -99 <= m <= 99 && -99 <= d <= 99,
{
    let bytes = key.as_bytes();
    if bytes.len() != 8 {
        return None;
    }
    let y = parse_i64_bytes(bytes, 0, 4);
    let m = parse_i64_bytes(bytes, 4, 6);
    let d = parse_i64_bytes(bytes, 6, 8);
    match (y, m, d) {
        (Some(y), Some(m), Some(d)) => {
            proof {
                let b = key.spec_bytes();
                lemma_int_literal_bound(b.subrange(0, 4));
                lemma_int_literal_bound(b.subrange(4, 6));
                lemma_int_literal_bound(b.subrange(6, 8));
                assert(pow10(2) == 100) by {
                    reveal_with_fuel(pow10, 3);
                }
                assert(pow10(4) == 10000) by {
                    reveal_with_fuel(pow10, 5);
                }
            }
            Some((y, m, d))
        },
        _ => {
            assert(bytes@ == key.spec_bytes());
            None
        },
    }
}

/// Parses the whole key as one integer (`20251225` for `"20251225"`).
pub fn parse_ymd(s: &str) -> (r: Option<i64>)
    ensures
        r == parsed_i64(s.spec_bytes()),
{
    let bytes = s.as_bytes();
    let r = parse_i64_bytes(bytes, 0, bytes.len());
    assert(bytes@.subrange(0, bytes@.len() as int) =~= bytes@);
    r
}

/// Today's date as the integer `YYYYMMDD`.
pub fn today_number(year: i64, month: i64, day: i64) -> (r: i64)
    requires
        fits_i64(year * 10000),
        fits_i64(month * 100),
        fits_i64(year * 10000 + month * 100),
        fits_i64(year * 10000 + month * 100 + day),
    ensures
        r == year * 10000 + month * 100 + day,
{
    year * 10000 + month * 100 + day
}

/// The days from today to the key's date, counted by day numbers.
pub open spec fn countdown_diff(y: i64, m: i64, d: i64, ty: i64, tm: i64, td: i64) -> int {
    julian_day(y as int, m as int, d as int) - julian_day(ty as int, tm as int, td as int)
}

/// The countdown text shown for a key: a dash for a malformed key, else
/// `"N days"`, `"Today!"` or `"N days ago"`.
pub open spec fn countdown_text(parts: Option<(i64, i64, i64)>, ty: i64, tm: i64, td: i64) -> Seq<char> {
    match parts {
        None => "—"@,
        Some((y, m, d)) => {
            let diff = countdown_diff(y, m, d, ty, tm, td);
            if diff > 0 {
                decimal(diff as nat) + " days"@
            } else if diff == 0 {
                "Today!"@
            } else {
                decimal((-diff) as nat) + " days ago"@
            }
        },
    }
}

/// For a key naming a day, the text tells how far that day is: for a later
/// day, digits spelling the number of days between, then " days"; for an
/// earlier day, digits spelling that number, then " days ago"; "Today!" on the
/// day itself.
pub proof fn lemma_countdown_text_tells_distance(y: i64, m: i64, d: i64, ty: i64, tm: i64, td: i64)
    ensures
        ({
            let text = countdown_text(Some((y, m, d)), ty, tm, td);
            let diff = julian_day(y as int, m as int, d as int) - julian_day(ty as int, tm as int, td as int);
            &&& diff > 0 ==> exists|digits: Seq<char>|
                text == digits + " days"@ && decimal_value(digits) == diff && digits.len() >= 1
            &&& diff == 0 ==> text == "Today!"@
            &&& diff < 0 ==> exists|digits: Seq<char>|
                text == digits + " days ago"@ && decimal_value(digits) == -diff && digits.len() >= 1
        }),
{
    let diff = julian_day(y as int, m as int, d as int) - julian_day(ty as int, tm as int, td as int);
    if diff > 0 {
        lemma_decimal_spells(diff as nat);
        assert(countdown_text(Some((y, m, d)), ty, tm, td) == decimal(diff as nat) + " days"@);
    } else if diff < 0 {
        lemma_decimal_spells((-diff) as nat);
        assert(countdown_text(Some((y, m, d)), ty, tm, td) == decimal((-diff) as nat) + " days ago"@);
    }
}

/// The countdown text for `key` as seen on the day `(today_year, today_month, today_day)`.
pub fn days_until_text(key: &str, today_year: i64, today_month: i64, today_day: i64) -> (r: String)
    requires
        key_slices_on_boundaries(key.spec_bytes()),
        day_formula_fits(today_year as int, today_month as int, today_day as int),
        ymd_parts_of(key.spec_bytes()) matches Some((y, m, d)) ==> i64::MIN < countdown_diff(
            y,
            m,
            d,
            today_year,
            today_month,
            today_day,
        ) <= i64::MAX,
    ensures
        r@ == countdown_text(ymd_parts_of(key.spec_bytes()), today_year, today_month, today_day),
{
    let (ky, km, kd) = match parse_ymd_parts(key) {
        Some(p) => p,
        None => return "—".to_owned(),
    };
    proof {
        lemma_small_day_formula_fits(ky as int, km as int, kd as int);
    }
    let diff = to_julian_day(ky, km, kd) - to_julian_day(today_year, today_month, today_day);
    if diff > 0 {
        let mut s = String::new();
        push_decimal(&mut s, diff as u64);
        s.append(" days");
        s
    } else if diff == 0 {
        "Today!".to_owned()
    } else {
        let mut s = String::new();
        push_decimal(&mut s, (0 - diff) as u64);
        s.append(" days ago");
        s
    }
}


/// Style of the countdown chip of a date after today.
pub const FUTURE_CHIP: &'static str = "bg-accent/15 text-accent-light rounded-full text-xs font-bold px-3 py-1 whitespace-nowrap";

/// Style of the countdown chip of today's date.
pub const TODAY_CHIP: &'static str = "bg-success/15 text-success rounded-full text-xs font-bold px-3 py-1 whitespace-nowrap";

/// Style of the countdown chip of a past date or a malformed key.
pub const PAST_CHIP: &'static str = "bg-muted/15 text-muted rounded-full text-xs font-bold px-3 py-1 whitespace-nowrap";

/// Where a key's date lies relative to today.
#[derive(Clone, Copy, Debug, PartialEq, Eq, Structural)]
pub enum DayStatus {
    Future,
    Today,
    Past,
}

/// The chip status of a key against today's `YYYYMMDD` number: the key, read
/// as one integer, is compared with today's number; a key that is not 8 bytes
/// long or not an integer counts as past.
pub open spec fn chip_status(key: Seq<u8>, today: i64) -> DayStatus {
    if key.len() != 8 {
        DayStatus::Past
    } else {
        match parsed_i64(key) {
            Some(d) => if d > today {
                DayStatus::Future
            } else if d == today {
                DayStatus::Today
            } else {
                DayStatus::Past
            },
            None => DayStatus::Past,
        }
    }
}

/// The chip style of a status.
pub open spec fn chip_style(status: DayStatus) -> &'static str {
    match status {
        DayStatus::Future => FUTURE_CHIP,
        DayStatus::Today => TODAY_CHIP,
        DayStatus::Past => PAST_CHIP,
    }
}

/// The status of `key` against today's number `today` (`YYYYMMDD`).
pub fn date_status(key: &str, today: i64) -> (r: DayStatus)
    ensures
        r == chip_status(key.spec_bytes(), today),
{
    let bytes = key.as_bytes();
    if bytes.len() != 8 {
        return DayStatus::Past;
    }
    match parse_ymd(key) {
        Some(d) => if d > today {
            DayStatus::Future
        } else if d == today {
            DayStatus::Today
        } else {
            DayStatus::Past
        },
        None => DayStatus::Past,
    }
}

/// The full style of the countdown chip of `key`, given today's number.
pub fn chip_classes(key: &str, today: i64) -> (r: &'static str)
    ensures
        r == chip_style(chip_status(key.spec_bytes(), today)),
{
    match date_status(key, today) {
        DayStatus::Future => FUTURE_CHIP,
        DayStatus::Today => TODAY_CHIP,
        DayStatus::Past => PAST_CHIP,
    }
}

/// The key is 8 bytes long and, read as one integer, below today's number.
pub fn is_past_date(key: &str, today: i64) -> (r: bool)
    ensures
        r == (key.spec_bytes().len() == 8 && (parsed_i64(key.spec_bytes()) matches Some(d) && d < today)),
{
    let bytes = key.as_bytes();
    if bytes.len() != 8 {
        return false;
    }
    match parse_ymd(key) {
        Some(d) => d < today,
        None => false,
    }
}

/// Style of a date card; past dates are dimmed.
pub fn card_classes(past: bool) -> (r: &'static str)
    ensures
        r == (if past { PAST_CARD } else { CURRENT_CARD }),
{
    if past { PAST_CARD } else { CURRENT_CARD }
}

/// Style of the card of a date that is not past.
pub const CURRENT_CARD: &'static str = "bg-surface border border-border rounded-xl px-5 py-4 flex items-center justify-between gap-3 hover:bg-elevated transition-colors";

/// Style of the card of a past date.
pub const PAST_CARD: &'static str = "bg-surface border border-border rounded-xl px-5 py-4 flex items-center justify-between gap-3 hover:bg-elevated transition-colors opacity-50";


/// The message that refuses a new entry, if it is refused: both fields must
/// be non-empty, and the key must be 8 bytes of ASCII digits.
pub open spec fn new_date_refusal(key: &str, label: &str) -> Option<Seq<char>> {
    if key@.len() == 0 || label@.len() == 0 {
        Some("Both fields are required."@)
    } else if !is_date_key_text(key) {
        Some("Date key must be 8 digits (YYYYMMDD)."@)
    } else {
        None
    }
}

/// Checks the two fields of the form that adds a date.
pub fn validate_new_date(key: &str, label: &str) -> (r: Result<(), String>)
    ensures
        match r {
            Ok(()) => new_date_refusal(key, label) is None,
            Err(msg) => new_date_refusal(key, label) == Some(msg@),
        },
{
    if key.is_empty() || label.is_empty() {
        return Err("Both fields are required.".to_owned());
    }
    if !is_date_key(key) {
        return Err("Date key must be 8 digits (YYYYMMDD).".to_owned());
    }
    Ok(())
}

/// The confirmation shown once a date was added.
pub fn added_message(key: &str) -> (r: String)
    ensures
        r@ == "Added "@ + key@ + "."@,
{
    let mut s = "Added ".to_owned();
    s.append(key);
    s.append(".");
    s
}

/// A 2xx status.
pub open spec fn is_success_status(status: u16) -> bool {
    200 <= status <= 299
}

/// How the page reads the status of the answer to its request for the list.
pub fn fetch_outcome(status: u16) -> (r: Result<(), String>)
    ensures
        match r {
            Ok(()) => is_success_status(status),
            Err(msg) => !is_success_status(status) && msg@ == "Unexpected server response (HTTP "@
                + decimal(status as nat) + ")."@,
        },
{
    if 200 <= status && status <= 299 {
        Ok(())
    } else {
        let mut s = "Unexpected server response (HTTP ".to_owned();
        push_decimal(&mut s, status as u64);
        s.append(").");
        Err(s)
    }
}

/// How the page reads the status of the answer to its request to add a date.
pub fn create_outcome(status: u16) -> (r: Result<(), String>)
    ensures
        match r {
            Ok(()) => status == 201,
            Err(msg) => status != 201 && msg@ == "Could not add date (HTTP "@ + decimal(status as nat)
                + ")."@,
        },
{
    if status == 201 {
        Ok(())
    } else {
        let mut s = "Could not add date (HTTP ".to_owned();
        push_decimal(&mut s, status as u64);
        s.append(").");
        Err(s)
    }
}

/// How the page reads the status of the answer to its request to delete a date.
pub fn delete_outcome(status: u16) -> (r: Result<(), String>)
    ensures
        match r {
            Ok(()) => is_success_status(status),
            Err(msg) => !is_success_status(status) && msg@ == "Could not delete date (HTTP "@
                + decimal(status as nat) + ")."@,
        },
{
    if 200 <= status && status <= 299 {
        Ok(())
    } else {
        let mut s = "Could not delete date (HTTP ".to_owned();
        push_decimal(&mut s, status as u64);
        s.append(").");
        Err(s)
    }
}


/// The status of a date that lies `diff` days after today.
pub open spec fn status_of_diff(diff: int) -> DayStatus {
    if diff > 0 {
        DayStatus::Future
    } else if diff == 0 {
        DayStatus::Today
    } else {
        DayStatus::Past
    }
}

proof fn lemma_digit_slice(b: Seq<u8>, lo: int, hi: int)
    requires
        all_digit_bytes(b),
        0 <= lo < hi <= b.len(),
        hi - lo <= 4,
    ensures
        parsed_i64(b.subrange(lo, hi)) == Some(digits_value(b.subrange(lo, hi)) as i64),
        0 <= digits_value(b.subrange(lo, hi)) < 10000,
{
    let s = b.subrange(lo, hi);
    assert(all_digit_bytes(s)) by {
        assert forall|i: int| 0 <= i < s.len() implies is_digit_byte(#[trigger] s[i]) by {
            assert(s[i] == b[lo + i]);
        }
    }
    assert(is_digit_byte(s[0]));
    lemma_digits_value_bound(s);
    assert(pow10(s.len()) <= 10000) by {
        reveal_with_fuel(pow10, 5);
        if s.len() == 1 {
        } else if s.len() == 2 {
        } else if s.len() == 3 {
        } else {
            assert(s.len() == 4);
        }
    }
}

/// For an 8-digit key naming a valid date, the chip (which compares the key,
/// read as one integer, with today's `YYYYMMDD` number) and the countdown text
/// (which subtracts day numbers) tell the same story: future, today or past.
pub proof fn lemma_chip_matches_countdown(key: Seq<u8>, ty: i64, tm: i64, td: i64)
    requires
        key.len() == 8,
        all_digit_bytes(key),
        ymd_parts_of(key) is Some,
        is_valid_date(
            (ymd_parts_of(key)->0).0 as int,
            (ymd_parts_of(key)->0).1 as int,
            (ymd_parts_of(key)->0).2 as int,
        ),
        is_valid_date(ty as int, tm as int, td as int),
        -100_000_000 <= ty <= 100_000_000,
    ensures
        chip_status(key, (ty * 10000 + tm * 100 + td) as i64) == status_of_diff(
            countdown_diff(
                (ymd_parts_of(key)->0).0,
                (ymd_parts_of(key)->0).1,
                (ymd_parts_of(key)->0).2,
                ty,
                tm,
                td,
            ),
        ),
{
    let (y, m, d) = ymd_parts_of(key)->0;
    lemma_digit_slice(key, 0, 4);
    lemma_digit_slice(key, 4, 6);
    lemma_digit_slice(key, 6, 8);
    let a = key.subrange(0, 4);
    let b = key.subrange(4, 6);
    let c = key.subrange(6, 8);
    assert(key =~= a + b + c);
    lemma_digits_value_concat(a + b, c);
    lemma_digits_value_concat(a, b);
    assert(pow10(2) == 100) by {
        reveal_with_fuel(pow10, 3);
    }
    assert(digits_value(a + b) == digits_value(a) * 100 + digits_value(b));
    assert(digits_value(key) == digits_value(a + b) * 100 + digits_value(c));
    assert(digits_value(key) == digits_value(a) * 10000 + digits_value(b) * 100 + digits_value(c))
        by (nonlinear_arith)
        requires
            digits_value(a + b) == digits_value(a) * 100 + digits_value(b),
            digits_value(key) == digits_value(a + b) * 100 + digits_value(c),
    ;
    assert(digits_value(key) == y * 10000 + m * 100 + d);
    assert(is_digit_byte(key[0]));
    assert(parsed_i64(key) == Some((y * 10000 + m * 100 + d) as i64));
    lemma_ymd_number_order(y as int, m as int, d as int, ty as int, tm as int, td as int);
    lemma_ymd_number_order(ty as int, tm as int, td as int, y as int, m as int, d as int);
    lemma_julian_day_order(y as int, m as int, d as int, ty as int, tm as int, td as int);
    lemma_julian_day_order(ty as int, tm as int, td as int, y as int, m as int, d as int);
}

} // verus!
