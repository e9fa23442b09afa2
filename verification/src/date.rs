use crate::text::{decimal, pieces, read_decimal, split_bytes, views};
use vstd::prelude::*;
use vstd::string::*;

verus! {

/// A date and time of day, field by field. The fields are kept as given:
/// nothing holds a month to 1..12 or an hour to 0..23.
#[derive(Clone, Copy, Debug, PartialEq, Eq, Structural)]
pub struct JsonDate {
    /// The year
    pub year: u16,
    /// The month (1 is January, 12 is December)
    pub month: u8,
    /// The day of the month
    pub date: u8,
    /// The hour on a 24-hour scale
    pub hour: u8,
    /// The minute
    pub minute: u8,
    /// The second
    pub second: u8,
}

impl View for JsonDate {
    type V = JsonDate;

    open spec fn view(&self) -> JsonDate {
        *self
    }
}

/// The number written by piece `k` of `part` split at `sep`, if there is such
/// a piece and it is a decimal numeral of at most `max`.
pub open spec fn field(part: Seq<u8>, sep: u8, k: int, max: nat) -> Option<nat> {
    let list = pieces(part, sep);
    if 0 <= k < list.len() {
        decimal(list[k], max)
    } else {
        None
    }
}

/// Piece `k` of a time of day `hh:mm:ss`; 0 where it is missing or no numeral
/// of at most 255.
pub open spec fn time_field(time: Seq<u8>, k: int) -> u8 {
    match field(time, 0x3A, k, 255) {
        Some(v) => v as u8,
        None => 0,
    }
}

/// The date that the UTF-8 text `text` writes, if any.
///
/// The text is split at `T`. What stands before the first `T` is split at `-`
/// and must begin with three numerals: year (at most 65535), month and day (at
/// most 255 each). What stands between the first `T` and the second, if
/// anything, is split at `:` into hour, minute and second; each of them is 0
/// where it is missing or unreadable. Further pieces are ignored.
pub open spec fn date_of(text: Seq<u8>) -> Option<JsonDate> {
    let halves = pieces(text, 0x54);
    let day = halves[0];
    let time = if halves.len() > 1 {
        halves[1]
    } else {
        Seq::empty()
    };
    match (field(day, 0x2D, 0, 65535), field(day, 0x2D, 1, 255), field(day, 0x2D, 2, 255)) {
        (Some(y), Some(m), Some(d)) => Some(
            JsonDate {
                year: y as u16,
                month: m as u8,
                date: d as u8,
                hour: time_field(time, 0),
                minute: time_field(time, 1),
                second: time_field(time, 2),
            },
        ),
        _ => None,
    }
}

/// The character for one decimal digit.
pub open spec fn digit_char(d: int) -> char {
    if d == 0 {
        '0'
    } else if d == 1 {
        '1'
    } else if d == 2 {
        '2'
    } else if d == 3 {
        '3'
    } else if d == 4 {
        '4'
    } else if d == 5 {
        '5'
    } else if d == 6 {
        '6'
    } else if d == 7 {
        '7'
    } else if d == 8 {
        '8'
    } else {
        '9'
    }
}

/// `v` modulo 100, as two digits.
pub open spec fn two_digit_text(v: u8) -> Seq<char> {
    let w = (v % 100) as int;
    seq![digit_char(w / 10), digit_char(w % 10)]
}

/// `v` modulo 10000, as four digits.
pub open spec fn four_digit_text(v: u16) -> Seq<char> {
    let w = (v % 10000) as int;
    seq![digit_char(w / 1000), digit_char(w / 100 % 10), digit_char(w / 10 % 10), digit_char(w % 10)]
}

/// A date as `YYYY-MM-DDTHH:mm:ss`.
pub open spec fn date_text(d: JsonDate) -> Seq<char> {
    four_digit_text(d.year) + seq!['-'] + two_digit_text(d.month) + seq!['-'] + two_digit_text(d.date)
        + seq!['T'] + two_digit_text(d.hour) + seq![':'] + two_digit_text(d.minute) + seq![':']
        + two_digit_text(d.second)
}

fn digit_str(d: u8) -> (r: &'static str)
    requires
        d < 10,
    ensures
        r@ == seq![digit_char(d as int)],
{
    proof {
        reveal_strlit("0");
        reveal_strlit("1");
        reveal_strlit("2");
        reveal_strlit("3");
        reveal_strlit("4");
        reveal_strlit("5");
        reveal_strlit("6");
        reveal_strlit("7");
        reveal_strlit("8");
        reveal_strlit("9");
    }
    let r: &'static str = if d == 0 {
        "0"
    } else if d == 1 {
        "1"
    } else if d == 2 {
        "2"
    } else if d == 3 {
        "3"
    } else if d == 4 {
        "4"
    } else if d == 5 {
        "5"
    } else if d == 6 {
        "6"
    } else if d == 7 {
        "7"
    } else if d == 8 {
        "8"
    } else {
        "9"
    };
    assert(r@ =~= seq![digit_char(d as int)]);
    r
}

fn read_field(list: &Vec<Vec<u8>>, k: usize, max: u64) -> (r: Option<u64>)
    ensures
        match r {
            Some(v) => 0 <= k < list@.len() && decimal(views(list@)[k as int], max as nat) == Some(
                v as nat,
            ),
            None => !(0 <= k < list@.len()) || decimal(views(list@)[k as int], max as nat) is None,
        },
{
    if k < list.len() {
        read_decimal(list[k].as_slice(), max)
    } else {
        None
    }
}

fn read_time_field(list: &Vec<Vec<u8>>, k: usize) -> (r: u8)
    ensures
        r == match (if 0 <= k < list@.len() {
            decimal(views(list@)[k as int], 255)
        } else {
            None
        }) {
            Some(v) => v as u8,
            None => 0,
        },
{
    match read_field(list, k, 255) {
        Some(v) => v as u8,
        None => 0,
    }
}

impl JsonDate {
    /// Reads a date such as `2023-06-06T12:30:00`. The time of day, or any
    /// part of it, may be missing: `2023-06-06` is read as midnight.
    pub fn from_str(input: &str) -> (r: Option<JsonDate>)
        ensures
            r == date_of(input.spec_bytes()),
    {
        let halves = split_bytes(input.as_bytes(), 0x54);
        proof {
            assert(views(halves@).len() == halves@.len());
            assert(pieces(input.spec_bytes(), 0x54).len() >= 1);
        }
        let day = split_bytes(halves[0].as_slice(), 0x2D);
        let time = if halves.len() > 1 {
            split_bytes(halves[1].as_slice(), 0x3A)
        } else {
            let nothing: Vec<u8> = Vec::new();
            assert(nothing@ =~= Seq::<u8>::empty());
            split_bytes(nothing.as_slice(), 0x3A)
        };
        proof {
            assert(views(day@).len() == day@.len());
            assert(views(time@).len() == time@.len());
        }
        let year = read_field(&day, 0, 65535);
        let month = read_field(&day, 1, 255);
        let date = read_field(&day, 2, 255);
        match (year, month, date) {
            (Some(y), Some(m), Some(d)) => {
                let hour = read_time_field(&time, 0);
                let minute = read_time_field(&time, 1);
                let second = read_time_field(&time, 2);
                Some(
                    JsonDate { year: y as u16, month: m as u8, date: d as u8, hour, minute, second },
                )
            },
            _ => None,
        }
    }

    /// `input` modulo 10000, written with four digits.
    pub fn four_digits(input: u16) -> (r: String)
        ensures
            r@ == four_digit_text(input),
    {
        let w: u16 = input % 10000;
        let mut r = String::new();
        r.append(digit_str((w / 1000) as u8));
        r.append(digit_str((w / 100 % 10) as u8));
        r.append(digit_str((w / 10 % 10) as u8));
        r.append(digit_str((w % 10) as u8));
        assert(r@ =~= four_digit_text(input));
        r
    }

    /// `input` modulo 100, written with two digits.
    pub fn two_digits(input: u8) -> (r: String)
        ensures
            r@ == two_digit_text(input),
    {
        let w: u8 = input % 100;
        let mut r = String::new();
        r.append(digit_str(w / 10));
        r.append(digit_str(w % 10));
        assert(r@ =~= two_digit_text(input));
        r
    }

    /// Writes the date as `YYYY-MM-DDTHH:mm:ss`. A year above 9999 is written
    /// modulo 10000, any other field above 99 modulo 100.
    pub fn to_string(&self) -> (r: String)
        ensures
            r@ == date_text(*self),
    {
        proof {
            reveal_strlit("-");
            reveal_strlit("T");
            reveal_strlit(":");
        }
        let mut r = Self::four_digits(self.year);
        r.append("-");
        r.append(Self::two_digits(self.month).as_str());
        r.append("-");
        r.append(Self::two_digits(self.date).as_str());
        r.append("T");
        r.append(Self::two_digits(self.hour).as_str());
        r.append(":");
        r.append(Self::two_digits(self.minute).as_str());
        r.append(":");
        r.append(Self::two_digits(self.second).as_str());
        assert(r@ =~= date_text(*self));
        r
    }
}

} // verus!
