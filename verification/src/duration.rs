//! Durations as three independent counters, read from duration expressions
//! and written back in a minimal form.

use vstd::prelude::*;
use vstd::string::*;
use crate::matching::{captures_all, regex_captures_all};
use crate::text::{decimal, decimal_string, digits_value, is_number, parse_number, saturate};

verus! {

/// Hours, minutes and seconds, each counted on its own: ninety minutes stay
/// ninety minutes. Each counter stops at `u32::MAX`.
#[derive(Debug, Clone, Copy, PartialEq, Eq, Structural)]
pub struct TimeDuration {
    pub hours: u32,
    pub minutes: u32,
    pub seconds: u32,
}

impl Default for TimeDuration {
    /// No time.
    fn default() -> (d: TimeDuration)
        ensures
            d == TimeDuration::zero(),
    {
        TimeDuration { hours: 0, minutes: 0, seconds: 0 }
    }
}

impl TimeDuration {
    /// No time.
    pub open spec fn zero() -> TimeDuration {
        TimeDuration { hours: 0, minutes: 0, seconds: 0 }
    }

    /// The sum of two durations, counter by counter, each capped.
    pub open spec fn plus(self, other: TimeDuration) -> TimeDuration {
        TimeDuration {
            hours: saturate(self.hours as nat + other.hours as nat),
            minutes: saturate(self.minutes as nat + other.minutes as nat),
            seconds: saturate(self.seconds as nat + other.seconds as nat),
        }
    }

    /// Adds `other` to this duration, counter by counter. Nothing is carried
    /// from one counter to another; a counter that would pass `u32::MAX`
    /// stays there.
    pub fn add(&mut self, other: &TimeDuration)
        ensures
            *final(self) == old(self).plus(*other),
    {
        self.hours = add_capped(self.hours, other.hours);
        self.minutes = add_capped(self.minutes, other.minutes);
        self.seconds = add_capped(self.seconds, other.seconds);
    }
}

/// The working hours in a day.
pub const HOURS_PER_DAY: u32 = 8;

/// A run of digits and, right behind it, one unit letter; letters in either
/// case.
pub const DURATION_PATTERN: &'static str = "(?i)(?P<value>\\d+)(?P<unit>h|m|s|d)";

/// The text of group `i` of a match, empty where the group is absent.
pub open spec fn group(groups: Seq<Option<Seq<char>>>, i: int) -> Seq<char> {
    if 0 <= i < groups.len() && groups[i] is Some {
        groups[i]->0
    } else {
        Seq::empty()
    }
}

/// The text is the single letter `lower` or `upper`.
pub open spec fn is_letter(unit: Seq<char>, lower: char, upper: char) -> bool {
    unit.len() == 1 && (unit[0] == lower || unit[0] == upper)
}

/// The number a token's digits write; zero where they are not ASCII digits.
pub open spec fn token_number(value: Seq<char>) -> nat {
    if is_number(value) {
        digits_value(value)
    } else {
        0
    }
}

/// The hours that one token gives: its number for `h`, eight times its
/// number for `d`.
pub open spec fn token_hours(value: Seq<char>, unit: Seq<char>) -> nat {
    if is_letter(unit, 'h', 'H') {
        token_number(value)
    } else if is_letter(unit, 'd', 'D') {
        HOURS_PER_DAY as nat * token_number(value)
    } else {
        0
    }
}

/// The minutes that one token gives.
pub open spec fn token_minutes(value: Seq<char>, unit: Seq<char>) -> nat {
    if is_letter(unit, 'm', 'M') {
        token_number(value)
    } else {
        0
    }
}

/// The seconds that one token gives.
pub open spec fn token_seconds(value: Seq<char>, unit: Seq<char>) -> nat {
    if is_letter(unit, 's', 'S') {
        token_number(value)
    } else {
        0
    }
}

/// The hours of all tokens together. A token is the groups of one match:
/// the digits at index 1, the unit at index 2.
pub open spec fn total_hours(tokens: Seq<Seq<Option<Seq<char>>>>) -> nat
    decreases tokens.len(),
{
    if tokens.len() == 0 {
        0
    } else {
        total_hours(tokens.drop_last()) + token_hours(
            group(tokens.last(), 1),
            group(tokens.last(), 2),
        )
    }
}

/// The minutes of all tokens together.
pub open spec fn total_minutes(tokens: Seq<Seq<Option<Seq<char>>>>) -> nat
    decreases tokens.len(),
{
    if tokens.len() == 0 {
        0
    } else {
        total_minutes(tokens.drop_last()) + token_minutes(
            group(tokens.last(), 1),
            group(tokens.last(), 2),
        )
    }
}

/// The seconds of all tokens together.
pub open spec fn total_seconds(tokens: Seq<Seq<Option<Seq<char>>>>) -> nat
    decreases tokens.len(),
{
    if tokens.len() == 0 {
        0
    } else {
        total_seconds(tokens.drop_last()) + token_seconds(
            group(tokens.last(), 1),
            group(tokens.last(), 2),
        )
    }
}

/// The duration that a sequence of tokens adds up to: each unit summed on its
/// own, each sum capped.
pub open spec fn duration_of(tokens: Seq<Seq<Option<Seq<char>>>>) -> TimeDuration {
    TimeDuration {
        hours: saturate(total_hours(tokens)),
        minutes: saturate(total_minutes(tokens)),
        seconds: saturate(total_seconds(tokens)),
    }
}

/// The tokens that the duration pattern finds in a text; none where the
/// pattern is not accepted.
pub open spec fn duration_tokens(text: Seq<char>) -> Seq<Seq<Option<Seq<char>>>> {
    match regex_captures_all(DURATION_PATTERN@, text) {
        Some(tokens) => tokens,
        None => Seq::empty(),
    }
}

/// The sum of two counters, capped.
fn add_capped(a: u32, b: u32) -> (r: u32)
    ensures
        r == saturate(a as nat + b as nat),
{
    if a > u32::MAX - b {
        u32::MAX
    } else {
        a + b
    }
}

/// The text of group `i`, empty where the group is absent.
pub fn group_text(groups: &Vec<Option<String>>, i: usize) -> (r: &str)
    ensures
        r@ == group(groups.deep_view(), i as int),
{
    proof {
        reveal_strlit("");
    }
    if i < groups.len() {
        assert(groups.deep_view()[i as int] == groups@[i as int].deep_view());
        match &groups[i] {
            Some(s) => s.as_str(),
            None => "",
        }
    } else {
        ""
    }
}

/// Whether the text is the single letter `lower` or `upper`.
fn has_letter(unit: &str, lower: char, upper: char) -> (r: bool)
    ensures
        r == is_letter(unit@, lower, upper),
{
    if unit.unicode_len() == 1 {
        let c: char = unit.get_char(0);
        c == lower || c == upper
    } else {
        false
    }
}

/// Adds up the tokens of a duration expression: `h` to the hours, `m` to the
/// minutes, `s` to the seconds, `d` as eight hours each. A token whose digits
/// or unit cannot be read gives nothing.
pub fn duration_from_tokens(tokens: &Vec<Vec<Option<String>>>) -> (d: TimeDuration)
    ensures
        d == duration_of(tokens.deep_view()),
{
    let mut d: TimeDuration = TimeDuration { hours: 0, minutes: 0, seconds: 0 };
    let mut i: usize = 0;
    while i < tokens.len()
        invariant
            i <= tokens.len(),
            d == duration_of(tokens.deep_view().take(i as int)),
        decreases tokens.len() - i,
    {
        let ghost all = tokens.deep_view();
        proof {
            assert(all.take(i + 1).drop_last() =~= all.take(i as int));
            assert(all.take(i + 1).last() == all[i as int]);
            assert(all[i as int] == tokens@[i as int].deep_view());
        }
        let value_text: &str = group_text(&tokens[i], 1);
        let unit_text: &str = group_text(&tokens[i], 2);
        let value: u32 = match parse_number(value_text) {
            Some(v) => v,
            None => 0,
        };
        assert(value == saturate(token_number(value_text@)));
        if has_letter(unit_text, 'h', 'H') {
            d.hours = add_capped(d.hours, value);
        } else if has_letter(unit_text, 'm', 'M') {
            d.minutes = add_capped(d.minutes, value);
        } else if has_letter(unit_text, 's', 'S') {
            d.seconds = add_capped(d.seconds, value);
        } else if has_letter(unit_text, 'd', 'D') {
            let wide: u64 = HOURS_PER_DAY as u64 * value as u64;
            let day_hours: u32 = if wide >= 0xFFFF_FFFFu64 {
                u32::MAX
            } else {
                wide as u32
            };
            d.hours = add_capped(d.hours, day_hours);
        }
        i = i + 1;
    }
    proof {
        assert(tokens.deep_view().take(tokens.len() as int) =~= tokens.deep_view());
    }
    d
}

/// Reads a duration expression: every run of digits that a unit letter
/// follows counts towards its unit, everything else is passed over. Never
/// fails: a text without such a token is no time.
pub fn parse_duration(text: &str) -> (d: TimeDuration)
    ensures
        d == duration_of(duration_tokens(text@)),
{
    match captures_all(DURATION_PATTERN, text) {
        Some(tokens) => duration_from_tokens(&tokens),
        None => TimeDuration { hours: 0, minutes: 0, seconds: 0 },
    }
}

/// One counter with its unit letter, nothing for a counter at zero.
pub open spec fn component_text(count: u32, unit: char) -> Seq<char> {
    if count > 0 {
        decimal(count as nat).push(unit)
    } else {
        Seq::empty()
    }
}

/// The minimal writing of a duration: hours, minutes, seconds in this order,
/// each as its number and unit letter, counters at zero left out.
pub open spec fn formatted(d: TimeDuration) -> Seq<char> {
    component_text(d.hours, 'h') + component_text(d.minutes, 'm') + component_text(
        d.seconds,
        's',
    )
}

/// Writes a duration in its minimal form, such as `2h15m10s`; no time is the
/// empty string.
pub fn format_duration(duration: &TimeDuration) -> (r: String)
    ensures
        r@ == formatted(*duration),
{
    proof {
        reveal_strlit("h");
        reveal_strlit("m");
        reveal_strlit("s");
    }
    let mut out: String = String::new();
    if duration.hours > 0 {
        let n: String = decimal_string(duration.hours);
        out.append(n.as_str());
        out.append("h");
    }
    assert(out@ =~= component_text(duration.hours, 'h'));
    if duration.minutes > 0 {
        let n: String = decimal_string(duration.minutes);
        out.append(n.as_str());
        out.append("m");
    }
    assert(out@ =~= component_text(duration.hours, 'h') + component_text(duration.minutes, 'm'));
    if duration.seconds > 0 {
        let n: String = decimal_string(duration.seconds);
        out.append(n.as_str());
        out.append("s");
    }
    assert(out@ =~= formatted(*duration));
    out
}

/// Two runs of tokens, one behind the other, give each unit the sum of what
/// each run gives it.
pub proof fn lemma_totals_of_concat(
    a: Seq<Seq<Option<Seq<char>>>>,
    b: Seq<Seq<Option<Seq<char>>>>,
)
    ensures
        total_hours(a + b) == total_hours(a) + total_hours(b),
        total_minutes(a + b) == total_minutes(a) + total_minutes(b),
        total_seconds(a + b) == total_seconds(a) + total_seconds(b),
    decreases b.len(),
{
    if b.len() == 0 {
        assert(a + b =~= a);
    } else {
        lemma_totals_of_concat(a, b.drop_last());
        assert((a + b).drop_last() =~= a + b.drop_last());
        assert((a + b).last() == b.last());
    }
}

/// Two runs of tokens, one behind the other, add up to the sum of what each
/// run adds up to, counter by counter.
pub proof fn lemma_duration_of_concat(
    a: Seq<Seq<Option<Seq<char>>>>,
    b: Seq<Seq<Option<Seq<char>>>>,
)
    ensures
        duration_of(a + b) == duration_of(a).plus(duration_of(b)),
{
    lemma_totals_of_concat(a, b);
}

/// A token of digits and a unit letter counts towards its own unit only:
/// its number for `h`, `m` and `s`, eight times its number in hours for `d`.
/// Any other unit gives nothing.
pub proof fn lemma_token_counts(value: Seq<char>, unit: Seq<char>)
    requires
        is_number(value),
    ensures
        is_letter(unit, 'h', 'H') ==> token_hours(value, unit) == digits_value(value)
            && token_minutes(value, unit) == 0 && token_seconds(value, unit) == 0,
        is_letter(unit, 'd', 'D') ==> token_hours(value, unit) == 8 * digits_value(value)
            && token_minutes(value, unit) == 0 && token_seconds(value, unit) == 0,
        is_letter(unit, 'm', 'M') ==> token_hours(value, unit) == 0 && token_minutes(value, unit)
            == digits_value(value) && token_seconds(value, unit) == 0,
        is_letter(unit, 's', 'S') ==> token_hours(value, unit) == 0 && token_minutes(value, unit)
            == 0 && token_seconds(value, unit) == digits_value(value),
        !is_letter(unit, 'h', 'H') && !is_letter(unit, 'd', 'D') && !is_letter(unit, 'm', 'M')
            && !is_letter(unit, 's', 'S') ==> token_hours(value, unit) == 0 && token_minutes(
            value,
            unit,
        ) == 0 && token_seconds(value, unit) == 0,
{
}

/// The token that writes one counter: the whole text, its digits, its unit.
pub open spec fn written_token(count: u32, unit: char) -> Seq<Option<Seq<char>>> {
    seq![Some(decimal(count as nat).push(unit)), Some(decimal(count as nat)), Some(seq![unit])]
}

/// The tokens of one counter: one token, or none for a counter at zero.
pub open spec fn written_component(count: u32, unit: char) -> Seq<Seq<Option<Seq<char>>>> {
    if count > 0 {
        seq![written_token(count, unit)]
    } else {
        Seq::empty()
    }
}

/// The tokens that the minimal writing of a duration is made of.
pub open spec fn written_tokens(d: TimeDuration) -> Seq<Seq<Option<Seq<char>>>> {
    written_component(d.hours, 'h') + written_component(d.minutes, 'm') + written_component(
        d.seconds,
        's',
    )
}

/// The texts of the tokens, one behind the other.
pub open spec fn token_texts(tokens: Seq<Seq<Option<Seq<char>>>>) -> Seq<char>
    decreases tokens.len(),
{
    if tokens.len() == 0 {
        Seq::empty()
    } else {
        token_texts(tokens.drop_last()) + group(tokens.last(), 0)
    }
}

/// What one written counter adds up to.
proof fn lemma_written_component(count: u32, unit: char)
    requires
        unit == 'h' || unit == 'm' || unit == 's',
    ensures
        token_texts(written_component(count, unit)) == component_text(count, unit),
        total_hours(written_component(count, unit)) == (if unit == 'h' {
            count as nat
        } else {
            0
        }),
        total_minutes(written_component(count, unit)) == (if unit == 'm' {
            count as nat
        } else {
            0
        }),
        total_seconds(written_component(count, unit)) == (if unit == 's' {
            count as nat
        } else {
            0
        }),
{
    let tokens = written_component(count, unit);
    if count > 0 {
        crate::text::lemma_decimal_round_trip(count as nat);
        assert(tokens.drop_last() =~= Seq::empty());
        assert(token_texts(tokens.drop_last()) =~= Seq::empty());
        assert(total_hours(tokens.drop_last()) == 0);
        assert(total_minutes(tokens.drop_last()) == 0);
        assert(total_seconds(tokens.drop_last()) == 0);
        assert(tokens.last() == written_token(count, unit));
        assert(group(tokens.last(), 1) == decimal(count as nat));
        assert(group(tokens.last(), 2) == seq![unit]);
        assert(token_texts(tokens) =~= component_text(count, unit));
    }
}

/// The texts of two runs of tokens, one behind the other.
proof fn lemma_token_texts_of_concat(
    a: Seq<Seq<Option<Seq<char>>>>,
    b: Seq<Seq<Option<Seq<char>>>>,
)
    ensures
        token_texts(a + b) == token_texts(a) + token_texts(b),
    decreases b.len(),
{
    if b.len() == 0 {
        assert(a + b =~= a);
        assert(token_texts(a) + token_texts(b) =~= token_texts(a));
    } else {
        lemma_token_texts_of_concat(a, b.drop_last());
        assert((a + b).drop_last() =~= a + b.drop_last());
        assert((a + b).last() == b.last());
        assert(token_texts(a + b) =~= token_texts(a) + token_texts(b));
    }
}

/// The minimal writing of a duration is made of one token for each counter
/// above zero, and these tokens add up to the duration.
pub proof fn lemma_format_round_trip(d: TimeDuration)
    ensures
        token_texts(written_tokens(d)) == formatted(d),
        duration_of(written_tokens(d)) == d,
{
    let h = written_component(d.hours, 'h');
    let m = written_component(d.minutes, 'm');
    let s = written_component(d.seconds, 's');
    lemma_written_component(d.hours, 'h');
    lemma_written_component(d.minutes, 'm');
    lemma_written_component(d.seconds, 's');
    lemma_totals_of_concat(h, m);
    lemma_totals_of_concat(h + m, s);
    lemma_token_texts_of_concat(h, m);
    lemma_token_texts_of_concat(h + m, s);
}

} // verus!
