use crate::text::{chars_of, string_of, trim_newline_chars, without_newline};
use std::time::{Duration, Instant};
use vstd::prelude::*;

verus! {

#[verifier::external_type_specification]
#[verifier::external_body]
pub struct ExInstant(Instant);

/// `std::time::Instant::now`: the current time. Nothing is stated of it: it depends on the clock.
#[verifier::external_body]
fn instant_now() -> Instant {
    Instant::now()
}

/// `std::time::Instant::duration_since`: the time from `earlier` to `later` (zero when
/// `earlier` is the later of the two). It depends on the clock readings, so nothing is stated.
#[verifier::external_body]
fn duration_since(later: Instant, earlier: Instant) -> Duration {
    later.duration_since(earlier)
}

/// The whole milliseconds of the longest duration, `Duration::MAX` (`u64::MAX` seconds and
/// 999 999 999 nanoseconds).
pub const MAX_MILLIS: u128 = 18_446_744_073_709_551_615_999;

/// `std::time::Duration::as_millis`: the whole milliseconds of a duration. A duration is
/// opaque here, so all that is stated is that no duration is longer than `Duration::MAX`.
#[verifier::external_body]
fn as_millis(d: Duration) -> (r: u128)
    ensures
        r <= MAX_MILLIS,
{
    d.as_millis()
}

/// Whether `c` has the Unicode White_Space property.
pub open spec fn is_white_space(c: char) -> bool {
    let v = c as u32;
    ||| 0x9 <= v <= 0xd
    ||| v == 0x20
    ||| v == 0x85
    ||| v == 0xa0
    ||| v == 0x1680
    ||| 0x2000 <= v <= 0x200a
    ||| v == 0x2028
    ||| v == 0x2029
    ||| v == 0x202f
    ||| v == 0x205f
    ||| v == 0x3000
}

fn white_space(c: char) -> (r: bool)
    ensures
        r == is_white_space(c),
{
    let v = c as u32;
    (0x9 <= v && v <= 0xd) || v == 0x20 || v == 0x85 || v == 0xa0 || v == 0x1680 || (0x2000 <= v
        && v <= 0x200a) || v == 0x2028 || v == 0x2029 || v == 0x202f || v == 0x205f || v == 0x3000
}

/*
    Remove new line characters from the end of a string

    Works on windows and linux
*/
pub fn trim_newline(s: &mut String)
    ensures
        final(s)@ == without_newline(old(s)@),
{
    let mut cs = chars_of(s.as_str());
    trim_newline_chars(&mut cs);
    *s = string_of(&cs);
}

/// What one character of the input adds to the cleaned text, given the character before it:
/// itself if it is not white space, one space if it starts a run of white space, else nothing.
pub open spec fn clean_step(c: char, prev: char) -> Seq<char> {
    if !is_white_space(c) {
        seq![c]
    } else if !is_white_space(prev) {
        seq![' ']
    } else {
        Seq::empty()
    }
}

/// The input with each run of white space replaced by one space and leading white space
/// dropped.
pub open spec fn collapsed(s: Seq<char>) -> Seq<char>
    decreases s.len(),
{
    if s.len() == 0 {
        Seq::empty()
    } else {
        let prev = if s.len() >= 2 { s[s.len() - 2] } else { ' ' };
        collapsed(s.drop_last()) + clean_step(s.last(), prev)
    }
}

/// `s` without white space at its end.
pub open spec fn trim_end(s: Seq<char>) -> Seq<char>
    decreases s.len(),
{
    if s.len() > 0 && is_white_space(s.last()) {
        trim_end(s.drop_last())
    } else {
        s
    }
}

/// `s` without white space at its start.
pub open spec fn trim_start(s: Seq<char>) -> Seq<char>
    decreases s.len(),
{
    if s.len() > 0 && is_white_space(s[0]) {
        trim_start(s.skip(1))
    } else {
        s
    }
}

/// `s` without white space at either end.
pub open spec fn trimmed(s: Seq<char>) -> Seq<char> {
    trim_start(trim_end(s))
}

fn trim_chars(v: &mut Vec<char>)
    ensures
        final(v)@ == trimmed(old(v)@),
{
    let ghost v0 = v@;
    while v.len() > 0 && white_space(v[v.len() - 1])
        invariant
            trim_end(v0) == trim_end(v@),
        decreases v.len(),
    {
        let ghost before = v@;
        v.pop();
        assert(v@ =~= before.drop_last());
    }
    let ghost t = v@;
    let mut i: usize = 0;
    proof {
        assert(t.skip(0) =~= t);
    }
    while i < v.len() && white_space(v[i])
        invariant
            i <= v.len(),
            v@ == t,
            trim_start(t) == trim_start(t.skip(i as int)),
        decreases v.len() - i,
    {
        assert(t.skip(i as int).skip(1) =~= t.skip(i + 1));
        i = i + 1;
    }
    let mut r: Vec<char> = Vec::new();
    let mut j: usize = i;
    while j < v.len()
        invariant
            i <= j <= v.len(),
            v@ == t,
            r@ == t.subrange(i as int, j as int),
        decreases v.len() - j,
    {
        r.push(v[j]);
        assert(r@ =~= t.subrange(i as int, j + 1));
        j = j + 1;
    }
    proof {
        assert(r@ =~= t.skip(i as int));
        if i == t.len() {
            assert(t.skip(i as int) =~= Seq::<char>::empty());
        }
    }
    *v = r;
}

pub fn clean_input(buffer: &str) -> (r: String)
    ensures
        r@ == trimmed(collapsed(buffer@)),
{
    let cs = chars_of(buffer);
    let mut cleaned: Vec<char> = Vec::new();
    let mut prev_char = ' ';
    let mut i: usize = 0;
    while i < cs.len()
        invariant
            i <= cs.len(),
            cleaned@ == collapsed(cs@.take(i as int)),
            prev_char == if i == 0 { ' ' } else { cs@[i - 1] },
        decreases cs.len() - i,
    {
        let c = cs[i];
        let ghost before = cleaned@;
        if !white_space(c) {
            cleaned.push(c);
        } else if white_space(c) && !white_space(prev_char) {
            cleaned.push(' ');
        }
        proof {
            let p = cs@.take(i + 1);
            assert(p.drop_last() =~= cs@.take(i as int));
            assert(cleaned@ =~= before + clean_step(c, prev_char));
        }
        prev_char = c;
        i = i + 1;
    }
    proof {
        assert(cs@.take(cs.len() as int) =~= cs@);
    }
    trim_chars(&mut cleaned);
    string_of(&cleaned)
}

/*
    Helper function to determine if we are out of time for our search
*/
pub fn out_of_time(start: Instant, time_to_move_ms: u128) -> (r: bool)
    ensures
        exists|elapsed: u128| elapsed <= MAX_MILLIS && r == exceeded_spec(elapsed, time_to_move_ms),
        time_to_move_ms == 0 ==> r,
        time_to_move_ms > MAX_MILLIS ==> !r,
{
    exceeded(elapsed_ms(start), time_to_move_ms)
}

/// Whether `elapsed` milliseconds use up a budget of `budget` milliseconds.
pub open spec fn exceeded_spec(elapsed: u128, budget: u128) -> bool {
    elapsed >= budget
}

/// Whether `elapsed` milliseconds use up a budget of `budget` milliseconds.
pub fn exceeded(elapsed: u128, budget: u128) -> (r: bool)
    ensures
        r == exceeded_spec(elapsed, budget),
{
    elapsed >= budget
}

/// The whole milliseconds that have passed since `start` (the clock decides how many).
pub fn elapsed_ms(start: Instant) -> (r: u128)
    ensures
        r <= MAX_MILLIS,
{
    as_millis(duration_since(instant_now(), start))
}

} // verus!
