//! Searching in texts and reading numbers.

use vstd::prelude::*;

use crate::text::{chars_of, split_text, text_of};

verus! {

use crate::text::{split_on, split_on_nonempty, texts_view};

/// `part` stands in `s` at position `at`.
pub open spec fn has_at(s: Seq<char>, part: Seq<char>, at: int) -> bool {
    0 <= at && at + part.len() <= s.len() && s.subrange(at, at + part.len()) == part
}

/// `part` stands somewhere in `s`.
pub open spec fn has_part(s: Seq<char>, part: Seq<char>) -> bool {
    exists|at: int| has_at(s, part, at)
}

/// `s` starts with `part`.
pub open spec fn has_prefix(s: Seq<char>, part: Seq<char>) -> bool {
    has_at(s, part, 0)
}

/// `s` ends with `part`.
pub open spec fn has_suffix(s: Seq<char>, part: Seq<char>) -> bool {
    s.len() >= part.len() && has_at(s, part, s.len() - part.len())
}

/// Whether `part` stands in `s` at position `at`.
pub fn part_at(s: &Vec<char>, part: &Vec<char>, at: usize) -> (r: bool)
    ensures
        r == has_at(s@, part@, at as int),
{
    if at > s.len() || part.len() > s.len() - at {
        return false;
    }
    let mut i: usize = 0;
    while i < part.len()
        invariant
            i <= part@.len(),
            at + part@.len() <= s@.len() <= usize::MAX,
            forall|j: int| 0 <= j < i ==> s@[at + j] == #[trigger] part@[j],
        decreases part.len() - i,
    {
        if s[at + i] != part[i] {
            assert(s@.subrange(at as int, at + part@.len())[i as int] != part@[i as int]);
            return false;
        }
        i = i + 1;
    }
    assert(s@.subrange(at as int, at + part@.len()) =~= part@);
    true
}

/// Whether `part` stands somewhere in `s`.
pub fn contains_text(s: &str, part: &str) -> (r: bool)
    ensures
        r == has_part(s@, part@),
{
    let hay = chars_of(s);
    let needle = chars_of(part);
    if needle.len() > hay.len() {
        return false;
    }
    let last: usize = hay.len() - needle.len();
    let mut at: usize = 0;
    while at <= last
        invariant
            hay@ == s@,
            needle@ == part@,
            needle@.len() <= hay@.len(),
            last == hay@.len() - needle@.len(),
            at <= last + 1,
            last < usize::MAX || at <= last,
            forall|j: int| 0 <= j < at ==> !#[trigger] has_at(s@, part@, j),
        decreases last + 1 - at,
    {
        if part_at(&hay, &needle, at) {
            return true;
        }
        if at == last {
            assert forall|j: int| !has_at(s@, part@, j) by {}
            return false;
        }
        at = at + 1;
    }
    false
}

/// Whether `s` starts with `part`.
pub fn starts_with_text(s: &str, part: &str) -> (r: bool)
    ensures
        r == has_prefix(s@, part@),
{
    part_at(&chars_of(s), &chars_of(part), 0)
}

/// Whether `s` ends with `part`.
pub fn ends_with_text(s: &str, part: &str) -> (r: bool)
    ensures
        r == has_suffix(s@, part@),
{
    let chars = chars_of(s);
    let tail = chars_of(part);
    if tail.len() > chars.len() {
        return false;
    }
    let at: usize = chars.len() - tail.len();
    part_at(&chars, &tail, at)
}

/// A decimal digit.
pub open spec fn is_digit(c: char) -> bool {
    '0' <= c && c <= '9'
}

/// The value of a decimal digit.
pub open spec fn digit_value(c: char) -> nat {
    (c as int - '0' as int) as nat
}

/// All characters are decimal digits.
pub open spec fn all_digits(s: Seq<char>) -> bool {
    forall|i: int| 0 <= i < s.len() ==> is_digit(#[trigger] s[i])
}

/// The number that digits stand for.
pub open spec fn digits_value(s: Seq<char>) -> nat
    decreases s.len(),
{
    if s.len() == 0 {
        0
    } else {
        10 * digits_value(s.drop_last()) + digit_value(s.last())
    }
}

/// The digits of a number with an optional plus sign in front.
pub open spec fn without_plus(s: Seq<char>) -> Seq<char> {
    if s.len() > 0 && s[0] == '+' {
        s.skip(1)
    } else {
        s
    }
}

/// The number up to `max` that a text writes in decimal, with an optional
/// plus sign.
pub open spec fn parsed_number(s: Seq<char>, max: nat) -> Option<nat> {
    let digits = without_plus(s);
    if digits.len() > 0 && all_digits(digits) && digits_value(digits) <= max {
        Some(digits_value(digits))
    } else {
        None
    }
}

/// More digits never make a number smaller.
proof fn lemma_digits_grow(s: Seq<char>, i: int)
    requires
        all_digits(s),
        0 <= i <= s.len(),
    ensures
        digits_value(s.take(i)) <= digits_value(s),
    decreases s.len(),
{
    if i == s.len() {
        assert(s.take(i) =~= s);
    } else {
        let rest = s.drop_last();
        assert(rest.take(i) =~= s.take(i));
        lemma_digits_grow(rest, i);
    }
}

/// The number up to `max` that the text writes.
pub fn parse_up_to(s: &str, max: u64) -> (r: Option<u64>)
    ensures
        match (r, parsed_number(s@, max as nat)) {
            (Some(n), Some(m)) => n == m,
            (None, None) => true,
            _ => false,
        },
{
    let chars = chars_of(s);
    let start: usize = if chars.len() > 0 && chars[0] == '+' {
        1
    } else {
        0
    };
    let ghost digits = without_plus(s@);
    assert(digits =~= chars@.skip(start as int));
    if chars.len() == start {
        return None;
    }
    let mut value: u64 = 0;
    let mut i: usize = start;
    assert(digits.take(0) =~= Seq::empty());
    while i < chars.len()
        invariant
            chars@ == s@,
            start <= i <= chars@.len(),
            digits == without_plus(s@),
            digits == chars@.skip(start as int),
            all_digits(digits.take(i - start)),
            value == digits_value(digits.take(i - start)),
            value <= max,
        decreases chars.len() - i,
    {
        let c = chars[i];
        let ghost next = digits.take(i - start + 1);
        assert(next.drop_last() =~= digits.take(i - start));
        assert(next.last() == c);
        if c < '0' || c > '9' {
            assert(!is_digit(digits[i - start]));
            return None;
        }
        let d: u64 = (c as u32 - '0' as u32) as u64;
        if value > max / 10 || (value == max / 10 && d > max % 10) {
            proof {
                assert(digits_value(next) > max);
                if all_digits(digits) {
                    lemma_digits_grow(digits, i - start + 1);
                }
            }
            return None;
        }
        proof {
            assert forall|j: int| 0 <= j < next.len() implies is_digit(#[trigger] next[j]) by {
                if j < i - start {
                    assert(digits.take(i - start)[j] == next[j]);
                }
            }
        }
        value = value * 10 + d;
        i = i + 1;
    }
    assert(digits.take(i - start) =~= digits);
    Some(value)
}

/// The index that a text writes.
pub fn parse_index(s: &str) -> (r: Option<usize>)
    ensures
        match (r, parsed_number(s@, usize::MAX as nat)) {
            (Some(n), Some(m)) => n == m,
            (None, None) => true,
            _ => false,
        },
{
    match parse_up_to(s, usize::MAX as u64) {
        Some(n) => Some(n as usize),
        None => None,
    }
}

// ---------------------------------------------------------------------------
// White space and lines
// ---------------------------------------------------------------------------

/// The character has the Unicode property `White_Space`.
pub open spec fn is_space(c: char) -> bool {
    let n = c as u32;
    ||| 0x09 <= n <= 0x0d
    ||| n == 0x20
    ||| n == 0x85
    ||| n == 0xa0
    ||| n == 0x1680
    ||| 0x2000 <= n <= 0x200a
    ||| n == 0x2028
    ||| n == 0x2029
    ||| n == 0x202f
    ||| n == 0x205f
    ||| n == 0x3000
}

/// Whether the character is white space.
pub fn is_white(c: char) -> (r: bool)
    ensures
        r == is_space(c),
{
    let n: u32 = c as u32;
    (0x09 <= n && n <= 0x0d) || n == 0x20 || n == 0x85 || n == 0xa0 || n == 0x1680 || (0x2000 <= n
        && n <= 0x200a) || n == 0x2028 || n == 0x2029 || n == 0x202f || n == 0x205f || n == 0x3000
}

/// The text without white space at its end.
pub open spec fn trimmed_end(s: Seq<char>) -> Seq<char>
    decreases s.len(),
{
    if s.len() > 0 && is_space(s.last()) {
        trimmed_end(s.drop_last())
    } else {
        s
    }
}

/// The text without white space at its start.
pub open spec fn trimmed_start(s: Seq<char>) -> Seq<char>
    decreases s.len(),
{
    if s.len() > 0 && is_space(s[0]) {
        trimmed_start(s.drop_first())
    } else {
        s
    }
}

/// The text without white space at its ends.
pub open spec fn trimmed(s: Seq<char>) -> Seq<char> {
    trimmed_end(trimmed_start(s))
}

fn end_of_text(chars: &Vec<char>, from: usize) -> (r: usize)
    requires
        from <= chars@.len(),
    ensures
        from <= r <= chars@.len(),
        chars@.subrange(from as int, r as int) == trimmed_end(
            chars@.subrange(from as int, chars@.len() as int),
        ),
{
    let mut end: usize = chars.len();
    while end > from && is_white(chars[end - 1])
        invariant
            from <= end <= chars@.len(),
            trimmed_end(chars@.subrange(from as int, chars@.len() as int)) == trimmed_end(
                chars@.subrange(from as int, end as int),
            ),
        decreases end,
    {
        assert(chars@.subrange(from as int, end as int).drop_last() =~= chars@.subrange(
            from as int,
            end - 1,
        ));
        end = end - 1;
    }
    end
}

/// The text without white space at its end.
pub fn trim_end_text(s: &str) -> (r: String)
    ensures
        r@ == trimmed_end(s@),
{
    let chars = chars_of(s);
    let end = end_of_text(&chars, 0);
    assert(chars@.subrange(0, chars@.len() as int) =~= s@);
    text_of(&chars, 0, end)
}

/// The text without white space at its ends.
pub fn trim_text(s: &str) -> (r: String)
    ensures
        r@ == trimmed(s@),
{
    let chars = chars_of(s);
    let ghost all = chars@;
    let mut from: usize = 0;
    assert(all.skip(0) =~= all);
    while from < chars.len() && is_white(chars[from])
        invariant
            from <= all.len(),
            all == chars@,
            trimmed_start(all) == trimmed_start(all.skip(from as int)),
        decreases chars.len() - from,
    {
        assert(all.skip(from as int).drop_first() =~= all.skip(from + 1));
        from = from + 1;
    }
    assert(trimmed_start(all) == all.skip(from as int));
    let end = end_of_text(&chars, from);
    assert(chars@.subrange(from as int, chars@.len() as int) =~= all.skip(from as int));
    text_of(&chars, from, end)
}

/// The line without a carriage return at its end.
pub open spec fn without_return(s: Seq<char>) -> Seq<char> {
    if s.len() > 0 && s.last() == '\r' {
        s.drop_last()
    } else {
        s
    }
}

/// The lines of a text. The last is left out when nothing follows the last
/// line feed.
pub open spec fn lines_of(s: Seq<char>) -> Seq<Seq<char>> {
    let parts = split_on(s, '\n');
    let kept = if parts.last().len() == 0 {
        parts.drop_last()
    } else {
        parts
    };
    Seq::new(
        kept.len(),
        |i: int|
            if i + 1 < parts.len() {
                without_return(kept[i])
            } else {
                kept[i]
            },
    )
}

fn drop_return(s: &str) -> (r: String)
    ensures
        r@ == without_return(s@),
{
    let chars = chars_of(s);
    if chars.len() > 0 && chars[chars.len() - 1] == '\r' {
        let r = text_of(&chars, 0, chars.len() - 1);
        assert(r@ =~= s@.drop_last());
        r
    } else {
        s.to_owned()
    }
}

/// The lines of a text.
pub fn split_lines(s: &str) -> (r: Vec<String>)
    ensures
        texts_view(r@) == lines_of(s@),
{
    let parts = split_text(s, '\n');
    let ghost ps = texts_view(parts@);
    proof {
        split_on_nonempty(s@, '\n');
    }
    let last: usize = parts.len() - 1;
    let count: usize = if chars_of(parts[last].as_str()).len() == 0 {
        last
    } else {
        parts.len()
    };
    let ghost want = lines_of(s@);
    let mut out: Vec<String> = Vec::new();
    let mut i: usize = 0;
    while i < count
        invariant
            i <= count <= parts@.len(),
            last + 1 == parts@.len(),
            ps == texts_view(parts@),
            ps == split_on(s@, '\n'),
            want == lines_of(s@),
            want.len() == count,
            out@.len() == i,
            forall|j: int| 0 <= j < i ==> (#[trigger] out@[j])@ == want[j],
        decreases count - i,
    {
        assert(ps[i as int] == parts@[i as int]@);
        if i < last {
            out.push(drop_return(parts[i].as_str()));
        } else {
            out.push(parts[i].clone());
        }
        i = i + 1;
    }
    assert(texts_view(out@) =~= want);
    out
}

} // verus!
