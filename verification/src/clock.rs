//! The clock face of the day cycle: a minute of the day written as `HH:MM`.

use vstd::prelude::*;
use crate::grammar::push_symbol;

verus! {

/// Minutes in one day.
pub const MINUTES_PER_DAY: u32 = 1440;

/// The decimal digit character for `d` in `0..10`.
pub open spec fn digit_char(d: int) -> char {
    (48 + d) as char
}

/// `HH:MM` for a minute count, taken modulo one day.
pub open spec fn clock_spec(minutes: u32) -> Seq<char> {
    let of_day = minutes as int % MINUTES_PER_DAY as int;
    let hours = of_day / 60;
    let mins = of_day % 60;
    seq![digit_char(hours / 10), digit_char(hours % 10), ':', digit_char(mins / 10), digit_char(mins % 10)]
}

fn digit(d: u32) -> (c: char)
    requires
        d < 10,
    ensures
        c == digit_char(d as int),
{
    let b: u8 = 48u8 + (d as u8);
    b as char
}

/// The clock text `HH:MM` (zero-padded, 24-hour) of a minute count, wrapped to one day.
pub fn clock_text(minutes: u32) -> (text: String)
    ensures
        text@ == clock_spec(minutes),
{
    let of_day = minutes % MINUTES_PER_DAY;
    let hours = of_day / 60;
    let mins = of_day % 60;
    let mut text = String::new();
    push_symbol(&mut text, digit(hours / 10));
    push_symbol(&mut text, digit(hours % 10));
    push_symbol(&mut text, ':');
    push_symbol(&mut text, digit(mins / 10));
    push_symbol(&mut text, digit(mins % 10));
    assert(text@ =~= clock_spec(minutes));
    text
}

/// The numeric value of a decimal digit character.
pub open spec fn digit_value(c: char) -> int {
    c as int - 48
}

/// The clock text reads back as the time of day: five characters `HH:MM` whose first two
/// digits are the hour `(m mod 1440) / 60` and whose last two are the minute `(m mod 1440) mod 60`.
pub proof fn lemma_clock_text_reads_back(minutes: u32)
    ensures
        clock_spec(minutes).len() == 5,
        clock_spec(minutes)[2] == ':',
        forall|i: int| 0 <= i < 5 && i != 2 ==> 0 <= #[trigger] digit_value(clock_spec(minutes)[i]) < 10,
        digit_value(clock_spec(minutes)[0]) * 10 + digit_value(clock_spec(minutes)[1]) == (minutes % 1440) / 60,
        digit_value(clock_spec(minutes)[3]) * 10 + digit_value(clock_spec(minutes)[4]) == (minutes % 1440) % 60,
{
    let of_day = minutes as int % 1440;
    let hours = of_day / 60;
    let mins = of_day % 60;
    assert(0 <= hours < 24);
    assert forall|d: int| 0 <= d < 10 implies #[trigger] digit_value(digit_char(d)) == d by {
        assert(((48 + d) as char) as int == 48 + d);
    }
    assert(digit_value(digit_char(hours / 10)) == hours / 10);
    assert(digit_value(digit_char(hours % 10)) == hours % 10);
    assert(digit_value(digit_char(mins / 10)) == mins / 10);
    assert(digit_value(digit_char(mins % 10)) == mins % 10);
}

} // verus!
