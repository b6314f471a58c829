use vstd::prelude::*;

verus! {

/// `String::push`: appends one character to a string.
#[verifier::external_body]
pub(crate) fn push_char(s: &mut String, c: char)
    ensures
        final(s)@ == old(s)@.push(c),
{
    s.push(c);
}

/// The characters of a string slice, in order.
pub fn chars_of(s: &str) -> (r: Vec<char>)
    ensures
        r@ == s@,
{
    let mut r: Vec<char> = Vec::new();
    for c in it: s.chars()
        invariant
            r@ == it.seq().take(it.index() as int),
    {
        r.push(c);
    }
    r
}

/// A string holding the given characters.
pub fn string_of(cs: &Vec<char>) -> (r: String)
    ensures
        r@ == cs@,
{
    let mut r = String::new();
    let mut i: usize = 0;
    while i < cs.len()
        invariant
            i <= cs.len(),
            r@ == cs@.take(i as int),
        decreases cs.len() - i,
    {
        push_char(&mut r, cs[i]);
        proof {
            assert(cs@.take(i + 1) =~= cs@.take(i as int).push(cs@[i as int]));
        }
        i = i + 1;
    }
    proof {
        assert(cs@.take(cs.len() as int) =~= cs@);
    }
    r
}

/// `s` without one trailing line break: a final `\n`, and a `\r` before it.
pub open spec fn without_newline(s: Seq<char>) -> Seq<char> {
    if s.len() > 0 && s.last() == '\n' {
        let t = s.drop_last();
        if t.len() > 0 && t.last() == '\r' {
            t.drop_last()
        } else {
            t
        }
    } else {
        s
    }
}

/// Removes one trailing line break from a list of characters.
pub fn trim_newline_chars(v: &mut Vec<char>)
    ensures
        final(v)@ == without_newline(old(v)@),
{
    if v.len() > 0 && v[v.len() - 1] == '\n' {
        v.pop();
        if v.len() > 0 && v[v.len() - 1] == '\r' {
            v.pop();
        }
    }
}

/// `s` split at every occurrence of `sep`, as `str::split` with a character pattern does:
/// the pieces between separators, empty ones included.
pub open spec fn split_on(s: Seq<char>, sep: char) -> Seq<Seq<char>>
    decreases s.len(),
{
    if s.len() == 0 {
        seq![Seq::empty()]
    } else {
        let pieces = split_on(s.drop_last(), sep);
        if s.last() == sep {
            pieces.push(Seq::empty())
        } else {
            pieces.update(pieces.len() - 1, pieces.last().push(s.last()))
        }
    }
}

pub proof fn lemma_split_nonempty(s: Seq<char>, sep: char)
    ensures
        split_on(s, sep).len() >= 1,
    decreases s.len(),
{
    if s.len() > 0 {
        lemma_split_nonempty(s.drop_last(), sep);
    }
}

/// Whether `c` occurs in `s`, read from its end.
pub open spec fn occurs(s: Seq<char>, c: char) -> bool
    decreases s.len(),
{
    s.len() > 0 && (s.last() == c || occurs(s.drop_last(), c))
}

pub proof fn lemma_occurs_contains(s: Seq<char>, c: char)
    ensures
        occurs(s, c) == s.contains(c),
    decreases s.len(),
{
    if s.len() > 0 {
        lemma_occurs_contains(s.drop_last(), c);
        if s.drop_last().contains(c) {
            let i = choose|i: int| 0 <= i < s.drop_last().len() && s.drop_last()[i] == c;
            assert(s[i] == c);
        }
        if s.contains(c) {
            let i = choose|i: int| 0 <= i < s.len() && s[i] == c;
            if i < s.len() - 1 {
                assert(s.drop_last()[i] == c);
            }
        }
    }
}

pub proof fn lemma_occurs_concat(a: Seq<char>, b: Seq<char>, c: char)
    ensures
        occurs(a + b, c) == (occurs(a, c) || occurs(b, c)),
    decreases b.len(),
{
    if b.len() > 0 {
        assert((a + b).drop_last() =~= a + b.drop_last());
        lemma_occurs_concat(a, b.drop_last(), c);
    } else {
        assert(a + b =~= a);
    }
}

/// A text without the separator is one piece.
pub proof fn lemma_split_no_sep(a: Seq<char>, sep: char)
    requires
        !occurs(a, sep),
    ensures
        split_on(a, sep) == seq![a],
    decreases a.len(),
{
    if a.len() > 0 {
        lemma_split_no_sep(a.drop_last(), sep);
        assert(a.drop_last().push(a.last()) =~= a);
        assert(seq![a.drop_last()].update(0, a.drop_last().push(a.last())) =~= seq![a]);
    } else {
        assert(a =~= Seq::<char>::empty());
    }
}

/// Splitting a text that starts with a piece and a separator gives that piece followed by
/// the pieces of the rest.
pub proof fn lemma_split_concat(a: Seq<char>, b: Seq<char>, sep: char)
    requires
        !occurs(a, sep),
    ensures
        split_on(a + seq![sep] + b, sep) == seq![a] + split_on(b, sep),
    decreases b.len(),
{
    let x = a + seq![sep] + b;
    if b.len() == 0 {
        assert(x.drop_last() =~= a);
        lemma_split_no_sep(a, sep);
        assert(split_on(x, sep) =~= seq![a] + split_on(b, sep));
    } else {
        let b2 = b.drop_last();
        lemma_split_concat(a, b2, sep);
        assert(x.drop_last() =~= a + seq![sep] + b2);
        assert(x.last() == b.last());
        lemma_split_nonempty(b2, sep);
        let p = split_on(b2, sep);
        if b.last() == sep {
            assert((seq![a] + p).push(Seq::empty()) =~= seq![a] + p.push(Seq::empty()));
        } else {
            let q = seq![a] + p;
            assert(q.update(q.len() - 1, q.last().push(b.last())) =~= seq![a] + p.update(
                p.len() - 1,
                p.last().push(b.last()),
            ));
        }
    }
}

/// The pieces of `s` between occurrences of `sep`.
pub fn split_chars(s: &Vec<char>, sep: char) -> (r: Vec<Vec<char>>)
    ensures
        r@.len() == split_on(s@, sep).len(),
        forall|j: int| 0 <= j < r@.len() ==> #[trigger] r@[j]@ == split_on(s@, sep)[j],
{
    let mut r: Vec<Vec<char>> = Vec::new();
    let mut cur: Vec<char> = Vec::new();
    let mut i: usize = 0;
    let ghost mut pieces: Seq<Seq<char>> = seq![Seq::empty()];
    proof {
        assert(s@.take(0) =~= Seq::<char>::empty());
    }
    while i < s.len()
        invariant
            i <= s.len(),
            pieces == split_on(s@.take(i as int), sep),
            pieces.len() == r@.len() + 1,
            forall|j: int| 0 <= j < r@.len() ==> #[trigger] r@[j]@ == pieces[j],
            cur@ == pieces.last(),
        decreases s.len() - i,
    {
        let c = s[i];
        proof {
            assert(s@.take(i + 1).drop_last() =~= s@.take(i as int));
        }
        if c == sep {
            let done = cur;
            r.push(done);
            cur = Vec::new();
            proof {
                pieces = pieces.push(Seq::empty());
            }
        } else {
            cur.push(c);
            proof {
                pieces = pieces.update(pieces.len() - 1, pieces.last().push(c));
            }
        }
        i = i + 1;
    }
    proof {
        assert(s@.take(s.len() as int) =~= s@);
    }
    r.push(cur);
    r
}

/// Whether `c` is one of the decimal digits `0` to `9`.
pub open spec fn is_digit(c: char) -> bool {
    '0' <= c <= '9'
}

/// The value of a decimal digit.
pub open spec fn digit_value(c: char) -> int {
    c as int - '0' as int
}

/// Whether every character of `s` is a decimal digit.
pub open spec fn all_digits(s: Seq<char>) -> bool {
    forall|i: int| 0 <= i < s.len() ==> is_digit(#[trigger] s[i])
}

/// The number written by the decimal digits `s`.
pub open spec fn decimal_value(s: Seq<char>) -> int
    decreases s.len(),
{
    if s.len() == 0 {
        0
    } else {
        decimal_value(s.drop_last()) * 10 + digit_value(s.last())
    }
}

/// The digits of an unsigned literal: one leading `+` is skipped.
pub open spec fn unsigned_digits(s: Seq<char>) -> Seq<char> {
    if s.len() > 0 && s[0] == '+' {
        s.skip(1)
    } else {
        s
    }
}

/// The value of an unsigned decimal literal as integer parsing reads it (an optional `+`,
/// then at least one digit), or `None`.
pub open spec fn unsigned_literal(s: Seq<char>) -> Option<int> {
    let d = unsigned_digits(s);
    if d.len() > 0 && all_digits(d) {
        Some(decimal_value(d))
    } else {
        None
    }
}

/// The value of a signed decimal literal (an optional `+` or `-`, then at least one digit),
/// or `None`.
pub open spec fn signed_literal(s: Seq<char>) -> Option<int> {
    if s.len() > 0 && s[0] == '-' {
        let d = s.skip(1);
        if d.len() > 0 && all_digits(d) {
            Some(-decimal_value(d))
        } else {
            None
        }
    } else {
        unsigned_literal(s)
    }
}

proof fn lemma_decimal_value_nonneg(s: Seq<char>)
    requires
        all_digits(s),
    ensures
        decimal_value(s) >= 0,
    decreases s.len(),
{
    if s.len() > 0 {
        lemma_decimal_value_nonneg(s.drop_last());
    }
}

/// An unsigned literal never has a negative value.
pub proof fn lemma_unsigned_literal_nonneg(s: Seq<char>)
    ensures
        unsigned_literal(s) matches Some(v) ==> v >= 0,
{
    if unsigned_literal(s) is Some {
        lemma_decimal_value_nonneg(unsigned_digits(s));
    }
}

/// The value of the digits `d` when it is at most `max`, else `None`.
fn digits_value(d: &Vec<char>, start: usize, max: u128) -> (r: Option<u128>)
    requires
        start <= d.len(),
    ensures
        all_digits(d@.skip(start as int)) && decimal_value(d@.skip(start as int)) <= max
            <==> r is Some,
        r matches Some(v) ==> v == decimal_value(d@.skip(start as int)),
{
    let mut value: u128 = 0;
    let mut i: usize = start;
    while i < d.len()
        invariant
            start <= i <= d.len(),
            all_digits(d@.subrange(start as int, i as int)),
            value == decimal_value(d@.subrange(start as int, i as int)),
            value <= max,
        decreases d.len() - i,
    {
        let c = d[i];
        proof {
            assert(d@.subrange(start as int, i + 1).drop_last() =~= d@.subrange(start as int, i as int));
        }
        if !('0' <= c && c <= '9') {
            proof {
                assert(d@.skip(start as int)[i - start] == c);
            }
            return None;
        }
        let digit = (c as u32 - '0' as u32) as u128;
        proof {
            assert(all_digits(d@.subrange(start as int, i + 1)));
            assert(decimal_value(d@.subrange(start as int, i + 1)) == value * 10 + digit);
        }
        if digit > max || value > (max - digit) / 10 {
            proof {
                assert(decimal_value(d@.subrange(start as int, i + 1)) > max) by (nonlinear_arith)
                    requires
                        decimal_value(d@.subrange(start as int, i + 1)) == value * 10 + digit,
                        digit > max || value > (max - digit) / 10,
                        digit <= 9,
                        value >= 0,
                ;
                assert(d@.skip(start as int).take(i + 1 - start) =~= d@.subrange(start as int, i + 1));
                lemma_prefix_value_bound(d@.skip(start as int), i + 1 - start, max as int);
            }
            return None;
        }
        proof {
            assert(value * 10 + digit <= max) by (nonlinear_arith)
                requires
                    value <= (max - digit) / 10,
                    digit <= 9,
                    digit <= max,
            ;
        }
        value = value * 10 + digit;
        i = i + 1;
    }
    proof {
        assert(d@.subrange(start as int, d.len() as int) =~= d@.skip(start as int));
    }
    Some(value)
}

/// When a prefix of a digit string already exceeds `max`, so does the whole string.
proof fn lemma_prefix_value_bound(s: Seq<char>, n: int, max: int)
    requires
        0 < n <= s.len(),
        max >= 0,
        all_digits(s.take(n)),
        decimal_value(s.take(n)) > max,
    ensures
        !(all_digits(s) && decimal_value(s) <= max),
    decreases s.len() - n,
{
    if n < s.len() && all_digits(s) {
        assert(s.take(n + 1).drop_last() =~= s.take(n));
        assert(all_digits(s.take(n + 1)));
        lemma_decimal_value_nonneg(s.take(n));
        assert(decimal_value(s.take(n + 1)) > max) by (nonlinear_arith)
            requires
                decimal_value(s.take(n + 1)) == decimal_value(s.take(n)) * 10 + digit_value(
                    s.take(n + 1).last(),
                ),
                decimal_value(s.take(n)) > max,
                max >= 0,
                digit_value(s.take(n + 1).last()) >= 0,
        ;
        lemma_prefix_value_bound(s, n + 1, max);
    } else if n == s.len() {
        assert(s.take(n) =~= s);
    }
}

/// Reads an unsigned decimal literal whose value is at most `max`.
pub fn parse_unsigned(s: &Vec<char>, max: u128) -> (r: Option<u128>)
    ensures
        r == (match unsigned_literal(s@) {
            Some(v) => if v <= max { Some(v as u128) } else { None },
            None => None,
        }),
{
    let start: usize = if s.len() > 0 && s[0] == '+' { 1 } else { 0 };
    proof {
        assert(unsigned_digits(s@) =~= s@.skip(start as int));
    }
    if start >= s.len() {
        return None;
    }
    digits_value(s, start, max)
}

/// Reads a signed decimal literal into an `i128`.
pub fn parse_i128(s: &Vec<char>) -> (r: Option<i128>)
    ensures
        r == (match signed_literal(s@) {
            Some(v) => if i128::MIN <= v <= i128::MAX { Some(v as i128) } else { None },
            None => None,
        }),
{
    if s.len() > 0 && s[0] == '-' {
        if s.len() == 1 {
            return None;
        }
        // the magnitude of i128::MIN
        let magnitude = digits_value(s, 1, 170141183460469231731687303715884105728u128);
        proof {
            if all_digits(s@.skip(1)) {
                lemma_decimal_value_nonneg(s@.skip(1));
            }
        }
        match magnitude {
            Some(m) => {
                if m == 170141183460469231731687303715884105728u128 {
                    Some(i128::MIN)
                } else {
                    Some(-(m as i128))
                }
            },
            None => None,
        }
    } else {
        let r = parse_unsigned(s, 170141183460469231731687303715884105727u128);
        match r {
            Some(v) => {
                proof {
                    assert(signed_literal(s@) == unsigned_literal(s@));
                    lemma_decimal_value_nonneg(unsigned_digits(s@));
                }
                Some(v as i128)
            },
            None => {
                proof {
                    if unsigned_literal(s@) is Some {
                        lemma_decimal_value_nonneg(unsigned_digits(s@));
                    }
                }
                None
            },
        }
    }
}

/// The number of bytes the UTF-8 encoding of `c` takes.
pub open spec fn char_width(c: char) -> int {
    if (c as u32) < 0x80 {
        1
    } else if (c as u32) < 0x800 {
        2
    } else if (c as u32) < 0x10000 {
        3
    } else {
        4
    }
}

/// The number of bytes the UTF-8 encoding of `s` takes.
pub open spec fn utf8_len(s: Seq<char>) -> int
    decreases s.len(),
{
    if s.len() == 0 {
        0
    } else {
        utf8_len(s.drop_last()) + char_width(s.last())
    }
}

/// Whether the UTF-8 encoding of `s` is exactly `n` bytes long.
pub fn has_byte_length(s: &Vec<char>, n: usize) -> (r: bool)
    requires
        n <= 1024,
    ensures
        r == (utf8_len(s@) == n),
{
    let mut total: usize = 0;
    let mut i: usize = 0;
    while i < s.len()
        invariant
            n <= 1024,
            i <= s.len(),
            total == utf8_len(s@.take(i as int)),
            total <= n,
        decreases s.len() - i,
    {
        let c = s[i] as u32;
        let w: usize = if c < 0x80 {
            1
        } else if c < 0x800 {
            2
        } else if c < 0x10000 {
            3
        } else {
            4
        };
        proof {
            assert(s@.take(i + 1).drop_last() =~= s@.take(i as int));
        }
        if total + w > n {
            proof {
                lemma_utf8_len_grows(s@, i + 1);
            }
            return false;
        }
        total = total + w;
        i = i + 1;
    }
    proof {
        assert(s@.take(s.len() as int) =~= s@);
    }
    total == n
}

/// Whether the UTF-8 encoding of `s` is exactly two bytes long.
pub fn is_two_bytes(s: &Vec<char>) -> (r: bool)
    ensures
        r == (utf8_len(s@) == 2),
{
    has_byte_length(s, 2)
}

/// The UTF-8 length of a string is at least that of any of its prefixes.
proof fn lemma_utf8_len_grows(s: Seq<char>, n: int)
    requires
        0 <= n <= s.len(),
    ensures
        utf8_len(s) >= utf8_len(s.take(n)),
    decreases s.len() - n,
{
    if n < s.len() {
        assert(s.take(n + 1).drop_last() =~= s.take(n));
        lemma_utf8_len_grows(s, n + 1);
    } else {
        assert(s.take(n) =~= s);
    }
}

/// Whether `c` occurs in `s`.
pub fn contains_char(s: &Vec<char>, c: char) -> (r: bool)
    ensures
        r == s@.contains(c),
{
    let mut i: usize = 0;
    while i < s.len()
        invariant
            i <= s.len(),
            forall|j: int| 0 <= j < i ==> s@[j] != c,
        decreases s.len() - i,
    {
        if s[i] == c {
            assert(s@[i as int] == c);
            return true;
        }
        i = i + 1;
    }
    false
}

/// The decimal digit character for `d` (0 to 9).
pub open spec fn digit_char(d: int) -> char {
    ('0' as int + d) as char
}

/// The decimal numeral of `n`, without leading zeros.
pub open spec fn decimal_text(n: nat) -> Seq<char>
    decreases n,
{
    if n < 10 {
        seq![digit_char(n as int)]
    } else {
        decimal_text(n / 10).push(digit_char((n % 10) as int))
    }
}

/// The decimal numeral of `v`, with a minus sign when it is negative.
pub open spec fn signed_text(v: int) -> Seq<char> {
    if v < 0 {
        seq!['-'] + decimal_text((-v) as nat)
    } else {
        decimal_text(v as nat)
    }
}

/// Appends the decimal numeral of `n`.
pub fn push_decimal(out: &mut Vec<char>, n: u128)
    ensures
        final(out)@ == old(out)@ + decimal_text(n as nat),
    decreases n,
{
    if n >= 10 {
        push_decimal(out, n / 10);
    }
    let d = (n % 10) as u32;
    let c = ((48u32 + d) as u8) as char;
    out.push(c);
    proof {
        if n >= 10 {
            assert(out@ =~= old(out)@ + decimal_text(n as nat));
        } else {
            assert(out@ =~= old(out)@ + decimal_text(n as nat));
        }
    }
}

/// Appends the decimal numeral of `v`, with a minus sign when it is negative.
pub fn push_signed(out: &mut Vec<char>, v: i64)
    ensures
        final(out)@ == old(out)@ + signed_text(v as int),
{
    if v < 0 {
        out.push('-');
        let m: i128 = -(v as i128);
        push_decimal(out, m as u128);
        assert(out@ =~= old(out)@ + signed_text(v as int));
    } else {
        push_decimal(out, v as u128);
    }
}

/// Appends the characters of `extra` to `v`.
pub fn append(v: &mut Vec<char>, extra: &Vec<char>)
    ensures
        final(v)@ == old(v)@ + extra@,
{
    let mut i: usize = 0;
    while i < extra.len()
        invariant
            i <= extra.len(),
            v@ == old(v)@ + extra@.take(i as int),
        decreases extra.len() - i,
    {
        v.push(extra[i]);
        assert(extra@.take(i + 1) =~= extra@.take(i as int).push(extra@[i as int]));
        i = i + 1;
    }
    assert(extra@.take(extra.len() as int) =~= extra@);
}

} // verus!
