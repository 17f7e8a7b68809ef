//! The textual form of an instant, as the backing database stores it:
//! `YYYY-MM-DDTHH:MM:SSZ`, UTC, fixed width and zero padded, so that the
//! lexicographic order of the stored strings is the chronological order of
//! the instants.

use vstd::prelude::*;

use crate::calendar::{
    civil_from_timestamp, days_in_month, lemma_civil_exists, lemma_civil_of,
    lemma_days_before_year_monotone, lemma_epoch_days_in_span, lemma_month_offsets_separate,
    spec_civil_of, spec_epoch_days, timestamp_from_civil, valid_civil_date,
};
use vstd::string::StrSliceExecFns;
use crate::time::Timestamp;

verus! {

/// The decimal digit character for a value below ten.
pub open spec fn digit_char(d: int) -> char {
    if d == 0 {
        '0'
    } else if d == 1 {
        '1'
    } else if d == 2 {
        '2'
    } else if d == 3 {
        '3'
    } else if d == 4 {
        '4'
    } else if d == 5 {
        '5'
    } else if d == 6 {
        '6'
    } else if d == 7 {
        '7'
    } else if d == 8 {
        '8'
    } else {
        '9'
    }
}

/// The value of a decimal digit character, if it is one.
pub open spec fn spec_digit_of(c: char) -> Option<int> {
    if c == '0' {
        Some(0int)
    } else if c == '1' {
        Some(1int)
    } else if c == '2' {
        Some(2int)
    } else if c == '3' {
        Some(3int)
    } else if c == '4' {
        Some(4int)
    } else if c == '5' {
        Some(5int)
    } else if c == '6' {
        Some(6int)
    } else if c == '7' {
        Some(7int)
    } else if c == '8' {
        Some(8int)
    } else if c == '9' {
        Some(9int)
    } else {
        None
    }
}

/// The twenty characters of a civil date-time.
pub open spec fn spec_format_civil(y: int, m: int, d: int, h: int, mi: int, s: int) -> Seq<char> {
    seq![
        digit_char(y / 1000),
        digit_char(y / 100 % 10),
        digit_char(y / 10 % 10),
        digit_char(y % 10),
        '-',
        digit_char(m / 10),
        digit_char(m % 10),
        '-',
        digit_char(d / 10),
        digit_char(d % 10),
        'T',
        digit_char(h / 10),
        digit_char(h % 10),
        ':',
        digit_char(mi / 10),
        digit_char(mi % 10),
        ':',
        digit_char(s / 10),
        digit_char(s % 10),
        'Z',
    ]
}

/// The textual form of an instant.
pub open spec fn spec_format_timestamp(t: Timestamp) -> Seq<char> {
    let c = spec_civil_of(t);
    let sod = t.spec_second_of_day();
    spec_format_civil(c.0, c.1, c.2, sod / 3600, sod % 3600 / 60, sod % 60)
}

/// The instant a string of the stored form denotes, if it is one.
pub open spec fn spec_parse_timestamp(s: Seq<char>) -> Option<Timestamp> {
    if s.len() == 20 && s[4] == '-' && s[7] == '-' && s[10] == 'T' && s[13] == ':' && s[16] == ':'
        && s[19] == 'Z' && spec_digit_of(s[0]) is Some && spec_digit_of(s[1]) is Some
        && spec_digit_of(s[2]) is Some && spec_digit_of(s[3]) is Some && spec_digit_of(s[5]) is Some
        && spec_digit_of(s[6]) is Some && spec_digit_of(s[8]) is Some && spec_digit_of(s[9]) is Some
        && spec_digit_of(s[11]) is Some && spec_digit_of(s[12]) is Some && spec_digit_of(s[14])
        is Some && spec_digit_of(s[15]) is Some && spec_digit_of(s[17]) is Some && spec_digit_of(
        s[18],
    ) is Some {
        let y = spec_digit_of(s[0])->Some_0 * 1000 + spec_digit_of(s[1])->Some_0 * 100
            + spec_digit_of(s[2])->Some_0 * 10 + spec_digit_of(s[3])->Some_0;
        let m = spec_digit_of(s[5])->Some_0 * 10 + spec_digit_of(s[6])->Some_0;
        let d = spec_digit_of(s[8])->Some_0 * 10 + spec_digit_of(s[9])->Some_0;
        let h = spec_digit_of(s[11])->Some_0 * 10 + spec_digit_of(s[12])->Some_0;
        let mi = spec_digit_of(s[14])->Some_0 * 10 + spec_digit_of(s[15])->Some_0;
        let sec = spec_digit_of(s[17])->Some_0 * 10 + spec_digit_of(s[18])->Some_0;
        if valid_civil_date(y, m, d) && h < 24 && mi < 60 && sec < 60 {
            Some(
                Timestamp {
                    seconds: (spec_epoch_days(y, m, d) * 86400 + h * 3600 + mi * 60 + sec) as i64,
                },
            )
        } else {
            None
        }
    } else {
        None
    }
}

/// Appends one decimal digit character.
fn push_digit(out: &mut String, d: i32)
    requires
        0 <= d < 10,
    ensures
        final(out)@ == old(out)@.push(digit_char(d as int)),
{
    let lit: &str = if d == 0 {
        "0"
    } else if d == 1 {
        "1"
    } else if d == 2 {
        "2"
    } else if d == 3 {
        "3"
    } else if d == 4 {
        "4"
    } else if d == 5 {
        "5"
    } else if d == 6 {
        "6"
    } else if d == 7 {
        "7"
    } else if d == 8 {
        "8"
    } else {
        "9"
    };
    proof {
        reveal_strlit("0");
        reveal_strlit("1");
        reveal_strlit("2");
        reveal_strlit("3");
        reveal_strlit("4");
        reveal_strlit("5");
        reveal_strlit("6");
        reveal_strlit("7");
        reveal_strlit("8");
        reveal_strlit("9");
        assert(lit@ =~= seq![digit_char(d as int)]);
    }
    out.append(lit);
    proof {
        assert(final(out)@ =~= old(out)@.push(digit_char(d as int)));
    }
}

/// The textual form of an instant: `YYYY-MM-DDTHH:MM:SSZ`, UTC.
#[verifier::rlimit(100)]
pub fn format_timestamp(t: Timestamp) -> (r: String)
    requires
        t.wf(),
    ensures
        r@ == spec_format_timestamp(t),
        r@.len() == 20,
{
    let (y, m, d, h, mi, s) = civil_from_timestamp(t);
    proof {
        lemma_civil_exists(t.spec_epoch_day());
        lemma_civil_of(t, y as int, m as int, d as int);
        let sod = t.spec_second_of_day();
        vstd::arithmetic::div_mod::lemma_fundamental_div_mod_converse(
            sod,
            3600,
            h as int,
            mi as int * 60 + s as int,
        );
        vstd::arithmetic::div_mod::lemma_fundamental_div_mod_converse(
            mi as int * 60 + s as int,
            60,
            mi as int,
            s as int,
        );
        assert(spec_civil_of(t).0 == y as int && spec_civil_of(t).1 == m as int && spec_civil_of(
            t,
        ).2 == d as int);
        assert(t.spec_second_of_day() / 3600 == h as int);
        assert(t.spec_second_of_day() % 3600 / 60 == mi as int);
        assert(t.spec_second_of_day() % 60 == s as int) by {
            vstd::arithmetic::div_mod::lemma_fundamental_div_mod_converse(
                t.spec_second_of_day(),
                60,
                h as int * 60 + mi as int,
                s as int,
            );
        }
    }
    format_civil(y, m, d, h, mi, s)
}

/// The twenty characters of a civil date-time, zero padded.
#[verifier::rlimit(100)]
fn format_civil(y: i32, m: i32, d: i32, h: i32, mi: i32, s: i32) -> (r: String)
    requires
        0 <= y < 10000,
        0 <= m < 100,
        0 <= d < 100,
        0 <= h < 100,
        0 <= mi < 100,
        0 <= s < 100,
    ensures
        r@ == spec_format_civil(y as int, m as int, d as int, h as int, mi as int, s as int),
        r@.len() == 20,
{
    let mut out = String::new();
    push_digit(&mut out, y / 1000);
    push_digit(&mut out, y / 100 % 10);
    push_digit(&mut out, y / 10 % 10);
    push_digit(&mut out, y % 10);
    push_dash(&mut out);
    push_digit(&mut out, m / 10);
    push_digit(&mut out, m % 10);
    push_dash(&mut out);
    push_digit(&mut out, d / 10);
    push_digit(&mut out, d % 10);
    push_tee(&mut out);
    push_digit(&mut out, h / 10);
    push_digit(&mut out, h % 10);
    push_colon(&mut out);
    push_digit(&mut out, mi / 10);
    push_digit(&mut out, mi % 10);
    push_colon(&mut out);
    push_digit(&mut out, s / 10);
    push_digit(&mut out, s % 10);
    push_zed(&mut out);
    proof {
        assert(out@ =~= spec_format_civil(
            y as int,
            m as int,
            d as int,
            h as int,
            mi as int,
            s as int,
        ));
    }
    out
}

/// The value of a decimal digit character, if it is one.
pub(crate) fn char_digit(c: char) -> (r: Option<i32>)
    ensures
        match r {
            Some(d) => 0 <= d < 10 && spec_digit_of(c) == Some(d as int),
            None => spec_digit_of(c) is None,
        },
{
    match c {
        '0' => Some(0),
        '1' => Some(1),
        '2' => Some(2),
        '3' => Some(3),
        '4' => Some(4),
        '5' => Some(5),
        '6' => Some(6),
        '7' => Some(7),
        '8' => Some(8),
        '9' => Some(9),
        _ => None,
    }
}

/// Reads an instant back from its textual form. Returns the instant exactly
/// when the string is the stored form of one — twenty characters, zero
/// padded, a valid calendar date, and a valid time of day — and nothing
/// otherwise.
#[verifier::rlimit(100)]
pub fn parse_timestamp(s: &str) -> (r: Option<Timestamp>)
    ensures
        r == spec_parse_timestamp(s@),
        r matches Some(t) ==> t.wf(),
{
    if s.unicode_len() != 20 {
        return None;
    }
    let d0 = match char_digit(s.get_char(0)) {
        Some(v) => v,
        None => {
            return None;
        },
    };
    let d1 = match char_digit(s.get_char(1)) {
        Some(v) => v,
        None => {
            return None;
        },
    };
    let d2 = match char_digit(s.get_char(2)) {
        Some(v) => v,
        None => {
            return None;
        },
    };
    let d3 = match char_digit(s.get_char(3)) {
        Some(v) => v,
        None => {
            return None;
        },
    };
    if s.get_char(4) != '-' {
        return None;
    }
    let d5 = match char_digit(s.get_char(5)) {
        Some(v) => v,
        None => {
            return None;
        },
    };
    let d6 = match char_digit(s.get_char(6)) {
        Some(v) => v,
        None => {
            return None;
        },
    };
    if s.get_char(7) != '-' {
        return None;
    }
    let d8 = match char_digit(s.get_char(8)) {
        Some(v) => v,
        None => {
            return None;
        },
    };
    let d9 = match char_digit(s.get_char(9)) {
        Some(v) => v,
        None => {
            return None;
        },
    };
    if s.get_char(10) != 'T' {
        return None;
    }
    let d11 = match char_digit(s.get_char(11)) {
        Some(v) => v,
        None => {
            return None;
        },
    };
    let d12 = match char_digit(s.get_char(12)) {
        Some(v) => v,
        None => {
            return None;
        },
    };
    if s.get_char(13) != ':' {
        return None;
    }
    let d14 = match char_digit(s.get_char(14)) {
        Some(v) => v,
        None => {
            return None;
        },
    };
    let d15 = match char_digit(s.get_char(15)) {
        Some(v) => v,
        None => {
            return None;
        },
    };
    if s.get_char(16) != ':' {
        return None;
    }
    let d17 = match char_digit(s.get_char(17)) {
        Some(v) => v,
        None => {
            return None;
        },
    };
    let d18 = match char_digit(s.get_char(18)) {
        Some(v) => v,
        None => {
            return None;
        },
    };
    if s.get_char(19) != 'Z' {
        return None;
    }
    let y = d0 * 1000 + d1 * 100 + d2 * 10 + d3;
    let m = d5 * 10 + d6;
    let d = d8 * 10 + d9;
    let h = d11 * 10 + d12;
    let mi = d14 * 10 + d15;
    let sec = d17 * 10 + d18;
    if y < 1970 || m < 1 || m > 12 || d < 1 {
        return None;
    }
    if d > days_in_month(y, m) {
        return None;
    }
    if h > 23 || mi > 59 || sec > 59 {
        return None;
    }
    let t = timestamp_from_civil(y, m, d, h, mi, sec);
    Some(t)
}

/// Reading back the textual form of an instant yields that instant.
pub proof fn lemma_format_then_parse(t: Timestamp)
    requires
        t.wf(),
    ensures
        spec_parse_timestamp(spec_format_timestamp(t)) == Some(t),
{
    lemma_civil_exists(t.spec_epoch_day());
    vstd::arithmetic::div_mod::lemma_fundamental_div_mod(t.seconds as int, 86400);
    vstd::arithmetic::div_mod::lemma_mod_bound(t.seconds as int, 86400);
    let c = spec_civil_of(t);
    assert(valid_civil_date(c.0, c.1, c.2) && spec_epoch_days(c.0, c.1, c.2)
        == t.spec_epoch_day());
    let sod = t.spec_second_of_day();
    let h = sod / 3600;
    let mi = sod % 3600 / 60;
    let sec = sod % 60;
    assert(0 <= h < 24) by {
        vstd::arithmetic::div_mod::lemma_div_pos_is_pos(sod, 3600);
        vstd::arithmetic::div_mod::lemma_div_is_ordered(sod, 86399, 3600);
    }
    assert(0 <= mi < 60) by {
        vstd::arithmetic::div_mod::lemma_mod_bound(sod, 3600);
        vstd::arithmetic::div_mod::lemma_div_pos_is_pos(sod % 3600, 60);
        vstd::arithmetic::div_mod::lemma_div_is_ordered(sod % 3600, 3599, 60);
    }
    assert(0 <= sec < 60) by {
        vstd::arithmetic::div_mod::lemma_mod_bound(sod, 60);
    }
    let s = spec_format_timestamp(t);
    assert(s == spec_format_civil(c.0, c.1, c.2, h, mi, sec));
    lemma_two_digits(c.1);
    lemma_two_digits(c.2);
    lemma_two_digits(h);
    lemma_two_digits(mi);
    lemma_two_digits(sec);
    lemma_four_digits(c.0);
    assert(spec_digit_of(s[0]) == Some(c.0 / 1000) && spec_digit_of(s[1]) == Some(c.0 / 100 % 10)
        && spec_digit_of(s[2]) == Some(c.0 / 10 % 10) && spec_digit_of(s[3]) == Some(c.0 % 10))
        by {
        lemma_digit_round(c.0 / 1000);
        lemma_digit_round(c.0 / 100 % 10);
        lemma_digit_round(c.0 / 10 % 10);
        lemma_digit_round(c.0 % 10);
    }
    assert(spec_digit_of(s[5]) == Some(c.1 / 10) && spec_digit_of(s[6]) == Some(c.1 % 10)) by {
        lemma_digit_round(c.1 / 10);
        lemma_digit_round(c.1 % 10);
    }
    assert(spec_digit_of(s[8]) == Some(c.2 / 10) && spec_digit_of(s[9]) == Some(c.2 % 10)) by {
        lemma_digit_round(c.2 / 10);
        lemma_digit_round(c.2 % 10);
    }
    assert(spec_digit_of(s[11]) == Some(h / 10) && spec_digit_of(s[12]) == Some(h % 10)) by {
        lemma_digit_round(h / 10);
        lemma_digit_round(h % 10);
    }
    assert(spec_digit_of(s[14]) == Some(mi / 10) && spec_digit_of(s[15]) == Some(mi % 10)) by {
        lemma_digit_round(mi / 10);
        lemma_digit_round(mi % 10);
    }
    assert(spec_digit_of(s[17]) == Some(sec / 10) && spec_digit_of(s[18]) == Some(sec % 10)) by {
        lemma_digit_round(sec / 10);
        lemma_digit_round(sec % 10);
    }
    assert(h * 3600 + mi * 60 + sec == sod) by {
        vstd::arithmetic::div_mod::lemma_fundamental_div_mod(sod, 3600);
        vstd::arithmetic::div_mod::lemma_fundamental_div_mod(sod % 3600, 60);
        vstd::arithmetic::div_mod::lemma_mod_mod(sod, 60, 60);
    }
    assert(spec_parse_timestamp(s) == Some(t));
}

/// Only the textual forms of instants parse: whatever string comes back as
/// an instant is, character for character, that instant's own textual form.
/// With the round trip the other way, the stored form and the instants are
/// in one-to-one correspondence.
pub proof fn lemma_parse_is_format(s: Seq<char>, t: Timestamp)
    requires
        spec_parse_timestamp(s) == Some(t),
    ensures
        t.wf(),
        spec_format_timestamp(t) == s,
{
    let d0 = spec_digit_of(s[0])->Some_0;
    let d1 = spec_digit_of(s[1])->Some_0;
    let d2 = spec_digit_of(s[2])->Some_0;
    let d3 = spec_digit_of(s[3])->Some_0;
    let d5 = spec_digit_of(s[5])->Some_0;
    let d6 = spec_digit_of(s[6])->Some_0;
    let d8 = spec_digit_of(s[8])->Some_0;
    let d9 = spec_digit_of(s[9])->Some_0;
    let d11 = spec_digit_of(s[11])->Some_0;
    let d12 = spec_digit_of(s[12])->Some_0;
    let d14 = spec_digit_of(s[14])->Some_0;
    let d15 = spec_digit_of(s[15])->Some_0;
    let d17 = spec_digit_of(s[17])->Some_0;
    let d18 = spec_digit_of(s[18])->Some_0;
    let y = d0 * 1000 + d1 * 100 + d2 * 10 + d3;
    let m = d5 * 10 + d6;
    let d = d8 * 10 + d9;
    let h = d11 * 10 + d12;
    let mi = d14 * 10 + d15;
    let sec = d17 * 10 + d18;
    let day = spec_epoch_days(y, m, d);
    let sod = h * 3600 + mi * 60 + sec;
    lemma_epoch_days_in_span(y, m, d);
    assert(t.seconds == day * 86400 + sod);
    assert(t.wf()) by {
        assert(day * 86400 <= crate::calendar::MAX_EPOCH_DAY * 86400) by (nonlinear_arith)
            requires
                0 <= day <= crate::calendar::MAX_EPOCH_DAY,
        ;
        assert(crate::time::MAX_TS == (crate::calendar::MAX_EPOCH_DAY + 1) * 86400 - 1);
    }
    assert(t.spec_epoch_day() == day && t.spec_second_of_day() == sod) by {
        vstd::arithmetic::div_mod::lemma_fundamental_div_mod_converse(
            t.seconds as int,
            86400,
            day,
            sod,
        );
    }
    lemma_civil_of(t, y, m, d);
    assert(sod / 3600 == h && sod % 3600 == mi * 60 + sec) by {
        vstd::arithmetic::div_mod::lemma_fundamental_div_mod_converse(
            sod,
            3600,
            h,
            mi * 60 + sec,
        );
    }
    assert(sod % 3600 / 60 == mi) by {
        vstd::arithmetic::div_mod::lemma_fundamental_div_mod_converse(
            mi * 60 + sec,
            60,
            mi,
            sec,
        );
    }
    assert(sod % 60 == sec) by {
        vstd::arithmetic::div_mod::lemma_fundamental_div_mod_converse(
            sod,
            60,
            h * 60 + mi,
            sec,
        );
    }
    assert(y / 1000 == d0 && y / 100 % 10 == d1 && y / 10 % 10 == d2 && y % 10 == d3) by {
        vstd::arithmetic::div_mod::lemma_fundamental_div_mod_converse(
            y,
            1000,
            d0,
            d1 * 100 + d2 * 10 + d3,
        );
        vstd::arithmetic::div_mod::lemma_fundamental_div_mod_converse(
            y,
            100,
            d0 * 10 + d1,
            d2 * 10 + d3,
        );
        vstd::arithmetic::div_mod::lemma_fundamental_div_mod_converse(y, 10, d0 * 100 + d1 * 10
            + d2, d3);
        vstd::arithmetic::div_mod::lemma_fundamental_div_mod_converse(d0 * 10 + d1, 10, d0, d1);
        vstd::arithmetic::div_mod::lemma_fundamental_div_mod_converse(
            d0 * 100 + d1 * 10 + d2,
            10,
            d0 * 10 + d1,
            d2,
        );
    }
    lemma_two_digit_split(m, d5, d6);
    lemma_two_digit_split(d, d8, d9);
    lemma_two_digit_split(h, d11, d12);
    lemma_two_digit_split(mi, d14, d15);
    lemma_two_digit_split(sec, d17, d18);
    lemma_char_round(s[0]);
    lemma_char_round(s[1]);
    lemma_char_round(s[2]);
    lemma_char_round(s[3]);
    lemma_char_round(s[5]);
    lemma_char_round(s[6]);
    lemma_char_round(s[8]);
    lemma_char_round(s[9]);
    lemma_char_round(s[11]);
    lemma_char_round(s[12]);
    lemma_char_round(s[14]);
    lemma_char_round(s[15]);
    lemma_char_round(s[17]);
    lemma_char_round(s[18]);
    assert(spec_format_timestamp(t) =~= s);
}

/// A two-digit value splits back into its digits.
proof fn lemma_two_digit_split(v: int, hi: int, lo: int)
    requires
        0 <= hi < 10,
        0 <= lo < 10,
        v == hi * 10 + lo,
    ensures
        v / 10 == hi,
        v % 10 == lo,
{
    vstd::arithmetic::div_mod::lemma_fundamental_div_mod_converse(v, 10, hi, lo);
}

/// A digit character reads back as its value.
proof fn lemma_digit_round(d: int)
    requires
        0 <= d < 10,
    ensures
        spec_digit_of(digit_char(d)) == Some(d),
{
}

/// A character that reads as a digit is that digit's character.
proof fn lemma_char_round(c: char)
    requires
        spec_digit_of(c) is Some,
    ensures
        digit_char(spec_digit_of(c)->Some_0) == c,
{
}

/// A value below one hundred is its two digits.
proof fn lemma_two_digits(v: int)
    requires
        0 <= v < 100,
    ensures
        0 <= v / 10 < 10,
        0 <= v % 10 < 10,
        (v / 10) * 10 + v % 10 == v,
{
    vstd::arithmetic::div_mod::lemma_fundamental_div_mod(v, 10);
    vstd::arithmetic::div_mod::lemma_mod_bound(v, 10);
    vstd::arithmetic::div_mod::lemma_div_pos_is_pos(v, 10);
    vstd::arithmetic::div_mod::lemma_div_is_ordered(v, 99, 10);
}

/// A value below ten thousand is its four digits.
proof fn lemma_four_digits(v: int)
    requires
        0 <= v < 10000,
    ensures
        0 <= v / 1000 < 10,
        0 <= v / 100 % 10 < 10,
        0 <= v / 10 % 10 < 10,
        0 <= v % 10 < 10,
        (v / 1000) * 1000 + (v / 100 % 10) * 100 + (v / 10 % 10) * 10 + v % 10 == v,
        v / 100 == (v / 1000) * 10 + v / 100 % 10,
        v / 10 == (v / 100) * 10 + v / 10 % 10,
        v == (v / 10) * 10 + v % 10,
{
    vstd::arithmetic::div_mod::lemma_fundamental_div_mod(v, 10);
    vstd::arithmetic::div_mod::lemma_mod_bound(v, 10);
    vstd::arithmetic::div_mod::lemma_div_pos_is_pos(v, 10);
    vstd::arithmetic::div_mod::lemma_div_is_ordered(v, 9999, 10);
    vstd::arithmetic::div_mod::lemma_fundamental_div_mod(v / 10, 10);
    vstd::arithmetic::div_mod::lemma_mod_bound(v / 10, 10);
    vstd::arithmetic::div_mod::lemma_div_pos_is_pos(v / 10, 10);
    vstd::arithmetic::div_mod::lemma_div_is_ordered(v / 10, 999, 10);
    vstd::arithmetic::div_mod::lemma_fundamental_div_mod(v / 100, 10);
    vstd::arithmetic::div_mod::lemma_mod_bound(v / 100, 10);
    vstd::arithmetic::div_mod::lemma_div_pos_is_pos(v / 100, 10);
    vstd::arithmetic::div_mod::lemma_div_is_ordered(v / 100, 99, 10);
    vstd::arithmetic::div_mod::lemma_div_denominator(v, 10, 10);
    vstd::arithmetic::div_mod::lemma_div_denominator(v, 100, 10);
    assert((v / 10) / 10 == v / 100);
    assert((v / 100) / 10 == v / 1000);
}

/// `a` comes strictly before `b` in lexicographic order: at the first place
/// they differ, `a` holds the smaller character.
pub open spec fn lex_less(a: Seq<char>, b: Seq<char>) -> bool {
    exists|i: int|
        #![trigger a[i], b[i]]
        {
            &&& 0 <= i < a.len()
            &&& i < b.len()
            &&& (forall|j: int| 0 <= j < i ==> a[j] == b[j])
            &&& (a[i] as int) < (b[i] as int)
        }
}

/// A place where two sequences first differ witnesses their order.
proof fn lemma_lex_witness(a: Seq<char>, b: Seq<char>, i: int)
    requires
        0 <= i < a.len(),
        i < b.len(),
        forall|j: int| 0 <= j < i ==> a[j] == b[j],
        (a[i] as int) < (b[i] as int),
    ensures
        lex_less(a, b),
{
}

/// A smaller digit is a smaller digit character.
proof fn lemma_digit_char_order(a: int, b: int)
    requires
        0 <= a < b < 10,
    ensures
        (digit_char(a) as int) < (digit_char(b) as int),
{
}

/// Each place of the textual form, by name.
proof fn lemma_format_civil_index(y: int, m: int, d: int, h: int, mi: int, s: int)
    ensures
        ({
            let f = spec_format_civil(y, m, d, h, mi, s);
            &&& f.len() == 20
            &&& f[0] == digit_char(y / 1000)
            &&& f[1] == digit_char(y / 100 % 10)
            &&& f[2] == digit_char(y / 10 % 10)
            &&& f[3] == digit_char(y % 10)
            &&& f[4] == '-'
            &&& f[5] == digit_char(m / 10)
            &&& f[6] == digit_char(m % 10)
            &&& f[7] == '-'
            &&& f[8] == digit_char(d / 10)
            &&& f[9] == digit_char(d % 10)
            &&& f[10] == 'T'
            &&& f[11] == digit_char(h / 10)
            &&& f[12] == digit_char(h % 10)
            &&& f[13] == ':'
            &&& f[14] == digit_char(mi / 10)
            &&& f[15] == digit_char(mi % 10)
            &&& f[16] == ':'
            &&& f[17] == digit_char(s / 10)
            &&& f[18] == digit_char(s % 10)
            &&& f[19] == 'Z'
        }),
{
}

/// Of two ordered two-digit values, the first differing digit is smaller.
proof fn lemma_two_digit_order(v1: int, v2: int)
    requires
        0 <= v1 < v2 < 100,
    ensures
        v1 / 10 < v2 / 10 || (v1 / 10 == v2 / 10 && v1 % 10 < v2 % 10),
{
    lemma_two_digits(v1);
    lemma_two_digits(v2);
    vstd::arithmetic::div_mod::lemma_div_is_ordered(v1, v2, 10);
}

/// Of two ordered four-digit values, the first differing digit is smaller.
proof fn lemma_four_digit_order(v1: int, v2: int)
    requires
        0 <= v1 < v2 < 10000,
    ensures
        v1 / 1000 < v2 / 1000 || (v1 / 1000 == v2 / 1000 && (v1 / 100 % 10 < v2 / 100 % 10 || (v1
            / 100 % 10 == v2 / 100 % 10 && (v1 / 10 % 10 < v2 / 10 % 10 || (v1 / 10 % 10 == v2 / 10
            % 10 && v1 % 10 < v2 % 10))))),
{
    lemma_four_digits(v1);
    lemma_four_digits(v2);
    vstd::arithmetic::div_mod::lemma_div_is_ordered(v1, v2, 1000);
    vstd::arithmetic::div_mod::lemma_div_is_ordered(v1, v2, 100);
    vstd::arithmetic::div_mod::lemma_div_is_ordered(v1, v2, 10);
}

/// Of two instants on different days, the earlier one's civil date is
/// lexicographically the smaller `(year, month, day)` triple.
proof fn lemma_civil_date_order(day1: int, day2: int, y1: int, m1: int, d1: int, y2: int, m2: int, d2: int)
    requires
        valid_civil_date(y1, m1, d1),
        valid_civil_date(y2, m2, d2),
        spec_epoch_days(y1, m1, d1) == day1,
        spec_epoch_days(y2, m2, d2) == day2,
        day1 < day2,
    ensures
        y1 < y2 || (y1 == y2 && (m1 < m2 || (m1 == m2 && d1 < d2))),
{
    lemma_epoch_days_in_span(y1, m1, d1);
    lemma_epoch_days_in_span(y2, m2, d2);
    assert(y1 <= y2) by {
        if y2 < y1 {
            lemma_days_before_year_monotone(y2 + 1, y1);
        }
    }
    if y1 == y2 {
        assert(m1 <= m2) by {
            if m2 < m1 {
                lemma_month_offsets_separate(y1, m2, m1);
            }
        }
    }
}

/// The stored form orders as the instants do: the text of an earlier instant
/// is lexicographically smaller, so sorting the stored strings sorts the
/// instants.
pub proof fn lemma_format_order_preserving(t1: Timestamp, t2: Timestamp)
    requires
        t1.wf(),
        t2.wf(),
        t1.seconds < t2.seconds,
    ensures
        lex_less(spec_format_timestamp(t1), spec_format_timestamp(t2)),
{
    lemma_civil_exists(t1.spec_epoch_day());
    lemma_civil_exists(t2.spec_epoch_day());
    vstd::arithmetic::div_mod::lemma_fundamental_div_mod(t1.seconds as int, 86400);
    vstd::arithmetic::div_mod::lemma_mod_bound(t1.seconds as int, 86400);
    vstd::arithmetic::div_mod::lemma_fundamental_div_mod(t2.seconds as int, 86400);
    vstd::arithmetic::div_mod::lemma_mod_bound(t2.seconds as int, 86400);
    let c1 = spec_civil_of(t1);
    let c2 = spec_civil_of(t2);
    assert(valid_civil_date(c1.0, c1.1, c1.2) && spec_epoch_days(c1.0, c1.1, c1.2)
        == t1.spec_epoch_day());
    assert(valid_civil_date(c2.0, c2.1, c2.2) && spec_epoch_days(c2.0, c2.1, c2.2)
        == t2.spec_epoch_day());
    let sod1 = t1.spec_second_of_day();
    let sod2 = t2.spec_second_of_day();
    let f1 = spec_format_timestamp(t1);
    let f2 = spec_format_timestamp(t2);
    lemma_format_civil_index(c1.0, c1.1, c1.2, sod1 / 3600, sod1 % 3600 / 60, sod1 % 60);
    lemma_format_civil_index(c2.0, c2.1, c2.2, sod2 / 3600, sod2 % 3600 / 60, sod2 % 60);
    lemma_sod_parts(sod1);
    lemma_sod_parts(sod2);
    vstd::arithmetic::div_mod::lemma_div_is_ordered(t1.seconds as int, t2.seconds as int, 86400);
    if t1.spec_epoch_day() < t2.spec_epoch_day() {
        lemma_civil_date_order(
            t1.spec_epoch_day(),
            t2.spec_epoch_day(),
            c1.0,
            c1.1,
            c1.2,
            c2.0,
            c2.1,
            c2.2,
        );
        if c1.0 < c2.0 {
            lemma_four_digit_order(c1.0, c2.0);
            if c1.0 / 1000 < c2.0 / 1000 {
                lemma_digit_char_order(c1.0 / 1000, c2.0 / 1000);
                lemma_lex_witness(f1, f2, 0);
            } else if c1.0 / 100 % 10 < c2.0 / 100 % 10 {
                lemma_digit_char_order(c1.0 / 100 % 10, c2.0 / 100 % 10);
                lemma_lex_witness(f1, f2, 1);
            } else if c1.0 / 10 % 10 < c2.0 / 10 % 10 {
                lemma_digit_char_order(c1.0 / 10 % 10, c2.0 / 10 % 10);
                lemma_lex_witness(f1, f2, 2);
            } else {
                lemma_digit_char_order(c1.0 % 10, c2.0 % 10);
                lemma_lex_witness(f1, f2, 3);
            }
        } else if c1.1 < c2.1 {
            lemma_two_digit_order(c1.1, c2.1);
            if c1.1 / 10 < c2.1 / 10 {
                lemma_digit_char_order(c1.1 / 10, c2.1 / 10);
                lemma_lex_witness(f1, f2, 5);
            } else {
                lemma_digit_char_order(c1.1 % 10, c2.1 % 10);
                lemma_lex_witness(f1, f2, 6);
            }
        } else {
            lemma_two_digit_order(c1.2, c2.2);
            if c1.2 / 10 < c2.2 / 10 {
                lemma_digit_char_order(c1.2 / 10, c2.2 / 10);
                lemma_lex_witness(f1, f2, 8);
            } else {
                lemma_digit_char_order(c1.2 % 10, c2.2 % 10);
                lemma_lex_witness(f1, f2, 9);
            }
        }
    } else {
        assert(t1.spec_epoch_day() == t2.spec_epoch_day());
        assert(sod1 < sod2);
        assert(c1 == c2) by {
            lemma_civil_of(t2, c1.0, c1.1, c1.2);
        }
        vstd::arithmetic::div_mod::lemma_div_is_ordered(sod1, sod2, 3600);
        if sod1 / 3600 < sod2 / 3600 {
            lemma_two_digit_order(sod1 / 3600, sod2 / 3600);
            if sod1 / 3600 / 10 < sod2 / 3600 / 10 {
                lemma_digit_char_order(sod1 / 3600 / 10, sod2 / 3600 / 10);
                lemma_lex_witness(f1, f2, 11);
            } else {
                lemma_digit_char_order(sod1 / 3600 % 10, sod2 / 3600 % 10);
                lemma_lex_witness(f1, f2, 12);
            }
        } else {
            assert(sod1 % 3600 < sod2 % 3600);
            vstd::arithmetic::div_mod::lemma_div_is_ordered(sod1 % 3600, sod2 % 3600, 60);
            if sod1 % 3600 / 60 < sod2 % 3600 / 60 {
                lemma_two_digit_order(sod1 % 3600 / 60, sod2 % 3600 / 60);
                if sod1 % 3600 / 60 / 10 < sod2 % 3600 / 60 / 10 {
                    lemma_digit_char_order(sod1 % 3600 / 60 / 10, sod2 % 3600 / 60 / 10);
                    lemma_lex_witness(f1, f2, 14);
                } else {
                    lemma_digit_char_order(sod1 % 3600 / 60 % 10, sod2 % 3600 / 60 % 10);
                    lemma_lex_witness(f1, f2, 15);
                }
            } else {
                assert(sod1 % 60 < sod2 % 60);
                lemma_two_digit_order(sod1 % 60, sod2 % 60);
                if sod1 % 60 / 10 < sod2 % 60 / 10 {
                    lemma_digit_char_order(sod1 % 60 / 10, sod2 % 60 / 10);
                    lemma_lex_witness(f1, f2, 17);
                } else {
                    lemma_digit_char_order(sod1 % 60 % 10, sod2 % 60 % 10);
                    lemma_lex_witness(f1, f2, 18);
                }
            }
        }
    }
}

/// The hour, minute and second of a second-of-day, with their ranges, and
/// the second-of-day rebuilt from them.
proof fn lemma_sod_parts(sod: int)
    requires
        0 <= sod < 86400,
    ensures
        0 <= sod / 3600 < 24,
        0 <= sod % 3600 / 60 < 60,
        0 <= sod % 60 < 60,
        sod == (sod / 3600) * 3600 + (sod % 3600 / 60) * 60 + sod % 60,
        sod % 3600 == (sod % 3600 / 60) * 60 + sod % 60,
{
    vstd::arithmetic::div_mod::lemma_fundamental_div_mod(sod, 3600);
    vstd::arithmetic::div_mod::lemma_mod_bound(sod, 3600);
    vstd::arithmetic::div_mod::lemma_div_pos_is_pos(sod, 3600);
    vstd::arithmetic::div_mod::lemma_div_is_ordered(sod, 86399, 3600);
    vstd::arithmetic::div_mod::lemma_fundamental_div_mod(sod % 3600, 60);
    vstd::arithmetic::div_mod::lemma_mod_bound(sod % 3600, 60);
    vstd::arithmetic::div_mod::lemma_div_pos_is_pos(sod % 3600, 60);
    vstd::arithmetic::div_mod::lemma_div_is_ordered(sod % 3600, 3599, 60);
    vstd::arithmetic::div_mod::lemma_mod_mod(sod, 60, 60);
}

/// Appends the date separator.
fn push_dash(out: &mut String)
    ensures
        final(out)@ == old(out)@.push('-'),
{
    proof {
        reveal_strlit("-");
    }
    out.append("-");
    proof {
        assert(final(out)@ =~= old(out)@.push('-'));
    }
}

/// Appends the date/time separator.
fn push_tee(out: &mut String)
    ensures
        final(out)@ == old(out)@.push('T'),
{
    proof {
        reveal_strlit("T");
    }
    out.append("T");
    proof {
        assert(final(out)@ =~= old(out)@.push('T'));
    }
}

/// Appends the time separator.
fn push_colon(out: &mut String)
    ensures
        final(out)@ == old(out)@.push(':'),
{
    proof {
        reveal_strlit(":");
    }
    out.append(":");
    proof {
        assert(final(out)@ =~= old(out)@.push(':'));
    }
}

/// Appends the UTC marker.
fn push_zed(out: &mut String)
    ensures
        final(out)@ == old(out)@.push('Z'),
{
    proof {
        reveal_strlit("Z");
    }
    out.append("Z");
    proof {
        assert(final(out)@ =~= old(out)@.push('Z'));
    }
}

} // verus!
