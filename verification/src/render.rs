//! Fixed-width decimal rendering: the `HH:00` notification slots and the
//! `DD.MM.YYYY` date arguments of the feed request.

use vstd::prelude::*;

use crate::date::Date;

verus! {

pub open spec fn digit_char(d: int) -> char {
    if d == 0 {
        '0'
    } else if d == 1 {
        '1'
    } else if d == 2 {
        '2'
    } else if d == 3 {
        '3'
    } else if d == 4 {
        '4'
    } else if d == 5 {
        '5'
    } else if d == 6 {
        '6'
    } else if d == 7 {
        '7'
    } else if d == 8 {
        '8'
    } else {
        '9'
    }
}

pub open spec fn two_digits(n: int) -> Seq<char> {
    seq![digit_char(n / 10), digit_char(n % 10)]
}

pub open spec fn four_digits(n: int) -> Seq<char> {
    seq![
        digit_char(n / 1000),
        digit_char((n / 100) % 10),
        digit_char((n / 10) % 10),
        digit_char(n % 10),
    ]
}

/// The text of the hourly notification slot: `HH:00`.
pub open spec fn slot_label_spec(h: int) -> Seq<char> {
    two_digits(h) + ":00"@
}

/// A date as the feed request spells it: `DD.MM.YYYY`.
pub open spec fn date_dmy(d: Date) -> Seq<char> {
    two_digits(d.day as int) + "."@ + two_digits(d.month as int) + "."@ + four_digits(
        d.year as int,
    )
}

fn digit_str(d: u8) -> (r: &'static str)
    requires
        d <= 9,
    ensures
        r@ == seq![digit_char(d as int)],
{
    if d == 0 {
        proof {
            reveal_strlit("0");
            assert("0"@ =~= seq![digit_char(0)]);
        }
        "0"
    } else if d == 1 {
        proof {
            reveal_strlit("1");
            assert("1"@ =~= seq![digit_char(1)]);
        }
        "1"
    } else if d == 2 {
        proof {
            reveal_strlit("2");
            assert("2"@ =~= seq![digit_char(2)]);
        }
        "2"
    } else if d == 3 {
        proof {
            reveal_strlit("3");
            assert("3"@ =~= seq![digit_char(3)]);
        }
        "3"
    } else if d == 4 {
        proof {
            reveal_strlit("4");
            assert("4"@ =~= seq![digit_char(4)]);
        }
        "4"
    } else if d == 5 {
        proof {
            reveal_strlit("5");
            assert("5"@ =~= seq![digit_char(5)]);
        }
        "5"
    } else if d == 6 {
        proof {
            reveal_strlit("6");
            assert("6"@ =~= seq![digit_char(6)]);
        }
        "6"
    } else if d == 7 {
        proof {
            reveal_strlit("7");
            assert("7"@ =~= seq![digit_char(7)]);
        }
        "7"
    } else if d == 8 {
        proof {
            reveal_strlit("8");
            assert("8"@ =~= seq![digit_char(8)]);
        }
        "8"
    } else {
        proof {
            reveal_strlit("9");
            assert("9"@ =~= seq![digit_char(9)]);
        }
        "9"
    }
}

/// Appends `n` as exactly two decimal digits.
pub fn push_two_digits(out: &mut String, n: u8)
    requires
        n <= 99,
    ensures
        final(out)@ == old(out)@ + two_digits(n as int),
{
    let ghost o0 = old(out)@;
    out.append(digit_str(n / 10));
    out.append(digit_str(n % 10));
    proof {
        assert(out@ =~= o0 + two_digits(n as int));
    }
}

/// Appends `n` as exactly four decimal digits.
pub fn push_four_digits(out: &mut String, n: u16)
    requires
        n <= 9999,
    ensures
        final(out)@ == old(out)@ + four_digits(n as int),
{
    let ghost o0 = old(out)@;
    out.append(digit_str((n / 1000) as u8));
    out.append(digit_str(((n / 100) % 10) as u8));
    out.append(digit_str(((n / 10) % 10) as u8));
    out.append(digit_str((n % 10) as u8));
    proof {
        assert(out@ =~= o0 + four_digits(n as int));
    }
}

/// The `HH:00` text of an hourly slot.
pub fn slot_label(h: u8) -> (r: String)
    requires
        h < 24,
    ensures
        r@ == slot_label_spec(h as int),
{
    let mut out = String::new();
    push_two_digits(&mut out, h);
    out.append(":00");
    proof {
        assert(out@ =~= slot_label_spec(h as int));
    }
    out
}

/// A date in the feed request's `DD.MM.YYYY` form.
pub fn format_date_dmy(d: &Date) -> (r: String)
    requires
        d.valid(),
    ensures
        r@ == date_dmy(*d),
{
    let mut out = String::new();
    push_two_digits(&mut out, d.day);
    out.append(".");
    push_two_digits(&mut out, d.month);
    out.append(".");
    push_four_digits(&mut out, d.year);
    proof {
        assert(out@ =~= date_dmy(*d));
    }
    out
}

/// Reads an `HH:00` slot text back into its hour.
pub open spec fn spec_parse_slot(s: Seq<char>) -> Option<u8> {
    if s.len() == 5 && crate::ical::is_digit(s[0]) && crate::ical::is_digit(s[1]) && s[2] == ':'
        && s[3] == '0' && s[4] == '0' && crate::ical::digit_val(s[0]) * 10 + crate::ical::digit_val(
        s[1],
    ) < 24 {
        Some((crate::ical::digit_val(s[0]) * 10 + crate::ical::digit_val(s[1])) as u8)
    } else {
        None
    }
}

/// Parses an `HH:00` slot text; `None` unless it names one of the 24 slots.
pub fn parse_slot(s: &str) -> (r: Option<u8>)
    ensures
        r == spec_parse_slot(s@),
        r matches Some(h) ==> h < 24,
{
    if s.unicode_len() != 5 {
        return None;
    }
    let c0 = s.get_char(0) as u32;
    let c1 = s.get_char(1) as u32;
    if c0 < 48 || c0 > 57 || c1 < 48 || c1 > 57 {
        return None;
    }
    if s.get_char(2) != ':' || s.get_char(3) != '0' || s.get_char(4) != '0' {
        return None;
    }
    let h = (c0 - 48) * 10 + (c1 - 48);
    if h < 24 {
        Some(h as u8)
    } else {
        None
    }
}

} // verus!
