//! Plain text: decimal numbers, separated fields and templates.

use vstd::prelude::*;
use vstd::string::*;

verus! {

/// The character of a decimal digit.
pub open spec fn digit(d: int) -> char
    recommends
        0 <= d < 10,
{
    ('0' as int + d) as char
}

pub open spec fn is_digit(c: char) -> bool {
    '0' <= c && c <= '9'
}

/// `n` in decimal, without leading zeros.
pub open spec fn decimal(n: nat) -> Seq<char>
    decreases n,
{
    if n < 10 {
        seq![digit(n as int)]
    } else {
        decimal(n / 10).push(digit(n as int % 10))
    }
}

/// The number that a run of digits denotes.
pub open spec fn digits_value(s: Seq<char>) -> nat
    decreases s.len(),
{
    if s.len() == 0 {
        0
    } else {
        digits_value(s.drop_last()) * 10 + (s.last() as int - '0' as int) as nat
    }
}

pub open spec fn all_digits(s: Seq<char>) -> bool {
    forall|i: int| 0 <= i < s.len() ==> is_digit(#[trigger] s[i])
}

/// What is left of a number behind its plus sign, if it has one.
pub open spec fn unsigned_part(s: Seq<char>) -> Seq<char> {
    if s.len() > 0 && s[0] == '+' {
        s.skip(1)
    } else {
        s
    }
}

/// The 16-bit number that `s` denotes: an optional plus sign, then one or more digits.
pub open spec fn u16_value(s: Seq<char>) -> Option<u16> {
    let digits = unsigned_part(s);
    if digits.len() > 0 && all_digits(digits) && digits_value(digits) <= u16::MAX {
        Some(digits_value(digits) as u16)
    } else {
        None
    }
}

/// A decimal is made of digits, and denotes the number it was made from.
pub proof fn lemma_decimal(n: nat)
    ensures
        decimal(n).len() > 0,
        all_digits(decimal(n)),
        digits_value(decimal(n)) == n,
    decreases n,
{
    reveal_with_fuel(digits_value, 2);
    if n < 10 {
        assert(decimal(n).drop_last() =~= Seq::<char>::empty());
    } else {
        lemma_decimal(n / 10);
        assert(decimal(n).drop_last() =~= decimal(n / 10));
    }
}

/// Every 16-bit number is read back from its decimal.
pub proof fn law_decimal_round_trip(n: u16)
    ensures
        u16_value(decimal(n as nat)) == Some(n),
{
    lemma_decimal(n as nat);
    assert(is_digit(decimal(n as nat)[0]));
}

/// A number below 100,000 takes at most five digits.
pub proof fn lemma_decimal_len(n: nat)
    requires
        n < 100_000,
    ensures
        decimal(n).len() <= 5,
{
    reveal_with_fuel(decimal, 6);
}

proof fn lemma_value_of_prefix(s: Seq<char>, k: int)
    requires
        0 <= k <= s.len(),
        all_digits(s),
    ensures
        digits_value(s.take(k)) <= digits_value(s),
    decreases s.len() - k,
{
    if k == s.len() {
        assert(s.take(k) =~= s);
    } else {
        lemma_value_of_prefix(s, k + 1);
        assert(s.take(k + 1).drop_last() =~= s.take(k));
    }
}

/// The characters of a string.
pub fn chars_of(s: &str) -> (chars: Vec<char>)
    ensures
        chars@ == s@,
{
    let mut chars: Vec<char> = Vec::new();
    for c in iter: s.chars()
        invariant
            chars@ == iter.seq().take(iter.index() as int),
            iter.seq() == s@,
    {
        chars.push(c);
    }
    chars
}

/// Whether two strings hold the same text.
pub fn same_text(a: &str, b: &str) -> (same: bool)
    ensures
        same == (a@ == b@),
{
    a.to_owned() == b.to_owned()
}

fn push_digit(out: &mut String, d: u16)
    requires
        d < 10,
    ensures
        final(out)@ == old(out)@.push(digit(d as int)),
{
    let text: &str = match d {
        0 => "0",
        1 => "1",
        2 => "2",
        3 => "3",
        4 => "4",
        5 => "5",
        6 => "6",
        7 => "7",
        8 => "8",
        _ => "9",
    };
    proof {
        reveal_strlit("0");
        reveal_strlit("1");
        reveal_strlit("2");
        reveal_strlit("3");
        reveal_strlit("4");
        reveal_strlit("5");
        reveal_strlit("6");
        reveal_strlit("7");
        reveal_strlit("8");
        reveal_strlit("9");
        assert(text@ =~= seq![digit(d as int)]);
    }
    out.append(text);
    assert(out@ =~= old(out)@.push(digit(d as int)));
}

/// Appends `n` in decimal.
pub fn push_decimal(out: &mut String, n: u16)
    ensures
        final(out)@ == old(out)@ + decimal(n as nat),
    decreases n,
{
    if n >= 10 {
        push_decimal(out, n / 10);
    }
    push_digit(out, n % 10);
    assert(out@ =~= old(out)@ + decimal(n as nat));
}

/// Reads a 16-bit number.
pub fn parse_u16(s: &str) -> (value: Option<u16>)
    ensures
        value == u16_value(s@),
{
    let chars = chars_of(s);
    let start: usize = if chars.len() > 0 && chars[0] == '+' { 1 } else { 0 };
    let ghost digits = unsigned_part(s@);
    assert(digits =~= chars@.skip(start as int));
    if start == chars.len() {
        return None;
    }
    let mut value: u32 = 0;
    let mut i: usize = start;
    while i < chars.len()
        invariant
            start <= i <= chars.len(),
            digits == chars@.skip(start as int),
            digits == unsigned_part(s@),
            value <= u16::MAX,
            value == digits_value(digits.take(i - start)),
            forall|j: int| 0 <= j < i - start ==> is_digit(#[trigger] digits[j]),
        decreases chars.len() - i,
    {
        let c = chars[i];
        assert(digits[i - start] == c);
        if !('0' <= c && c <= '9') {
            assert(!is_digit(digits[i - start]));
            return None;
        }
        assert(digits.take(i + 1 - start).drop_last() =~= digits.take(i - start));
        value = value * 10 + (c as u32 - '0' as u32);
        if value > 65535 {
            proof {
                if all_digits(digits) {
                    lemma_value_of_prefix(digits, i + 1 - start);
                }
            }
            return None;
        }
        i = i + 1;
    }
    assert(digits.take(chars.len() - start) =~= digits);
    Some(value as u16)
}

/// Where `c` first occurs in `s`, or the end of `s` if it does not occur.
pub open spec fn find_char(s: Seq<char>, c: char) -> int
    decreases s.len(),
{
    if s.len() == 0 || s[0] == c {
        0
    } else {
        1 + find_char(s.skip(1), c)
    }
}

/// The pieces of `s` between separators: at most `n` of them, the last one taking
/// whatever is left, further separators with it.
pub open spec fn split_fields(s: Seq<char>, sep: char, n: nat) -> Seq<Seq<char>>
    decreases n,
{
    let at = find_char(s, sep);
    if n <= 1 || at == s.len() {
        seq![s]
    } else {
        seq![s.take(at)] + split_fields(s.skip(at + 1), sep, (n - 1) as nat)
    }
}

pub proof fn lemma_find_char(s: Seq<char>, c: char)
    ensures
        0 <= find_char(s, c) <= s.len(),
        forall|i: int| 0 <= i < find_char(s, c) ==> s[i] != c,
        find_char(s, c) < s.len() ==> s[find_char(s, c)] == c,
    decreases s.len(),
{
    if s.len() == 0 || s[0] == c {
    } else {
        lemma_find_char(s.skip(1), c);
        assert forall|i: int| 0 <= i < find_char(s, c) implies s[i] != c by {
            if i > 0 {
                assert(s[i] == s.skip(1)[i - 1]);
            }
        }
    }
}

/// The position that [`find_char`] names is the only one with these properties.
pub proof fn lemma_find_char_is(s: Seq<char>, c: char, at: int)
    requires
        0 <= at <= s.len(),
        forall|i: int| 0 <= i < at ==> s[i] != c,
        at < s.len() ==> s[at] == c,
    ensures
        find_char(s, c) == at,
{
    lemma_find_char(s, c);
}

/// Splitting off a first field that holds no separator.
pub proof fn lemma_split_first(field: Seq<char>, rest: Seq<char>, sep: char, n: nat)
    requires
        n > 1,
        !field.contains(sep),
    ensures
        split_fields(field.push(sep) + rest, sep, n) == seq![field] + split_fields(
            rest,
            sep,
            (n - 1) as nat,
        ),
{
    let s = field.push(sep) + rest;
    assert forall|i: int| 0 <= i < field.len() implies s[i] != sep by {
        assert(field.contains(field[i]));
    }
    lemma_find_char_is(s, sep, field.len() as int);
    assert(s.take(field.len() as int) =~= field);
    assert(s.skip(field.len() as int + 1) =~= rest);
}

fn find_from(chars: &Vec<char>, c: char, start: usize) -> (at: usize)
    requires
        start <= chars@.len(),
    ensures
        at == start + find_char(chars@.skip(start as int), c),
        start <= at <= chars@.len(),
{
    let mut at: usize = start;
    while at < chars.len() && chars[at] != c
        invariant
            start <= at <= chars@.len(),
            forall|i: int| start <= i < at ==> chars@[i] != c,
        decreases chars@.len() - at,
    {
        at = at + 1;
    }
    proof {
        lemma_find_char_is(chars@.skip(start as int), c, at - start);
    }
    at
}

/// The text of an optional string.
pub open spec fn opt_text(s: Option<String>) -> Option<Seq<char>> {
    match s {
        Some(text) => Some(text@),
        None => None,
    }
}

/// The texts of a run of optional strings, in order.
pub open spec fn opt_texts(strings: Seq<Option<String>>) -> Seq<Option<Seq<char>>> {
    strings.map_values(|s: Option<String>| opt_text(s))
}

/// The texts of a run of strings, in order.
pub open spec fn texts(strings: Seq<String>) -> Seq<Seq<char>> {
    strings.map_values(|s: String| s@)
}

/// Splits a line into at most `n` fields.
pub fn split_line(line: &str, sep: char, n: usize) -> (fields: Vec<String>)
    ensures
        texts(fields@) == split_fields(line@, sep, n as nat),
{
    let chars = chars_of(line);
    let mut fields: Vec<String> = Vec::new();
    let mut start: usize = 0;
    let mut left: usize = n;
    assert(line@.skip(0) =~= line@);
    while left > 1
        invariant
            chars@ == line@,
            start <= chars@.len(),
            texts(fields@) + split_fields(line@.skip(start as int), sep, left as nat)
                == split_fields(line@, sep, n as nat),
        ensures
            left <= 1 || find_char(line@.skip(start as int), sep) == line@.skip(
                start as int,
            ).len(),
        decreases left,
    {
        let at = find_from(&chars, sep, start);
        let ghost rest = line@.skip(start as int);
        if at == chars.len() {
            break;
        }
        let field = line.substring_char(start, at).to_owned();
        proof {
            assert(rest.take(at - start) =~= line@.subrange(start as int, at as int));
            assert(rest.skip(at - start + 1) =~= line@.skip(at + 1));
            assert(texts(fields@.push(field)) =~= texts(fields@).push(field@));
            assert(texts(fields@) + split_fields(rest, sep, left as nat) =~= texts(
                fields@.push(field),
            ) + split_fields(line@.skip(at + 1), sep, (left - 1) as nat));
        }
        fields.push(field);
        start = at + 1;
        left = left - 1;
    }
    let last = line.substring_char(start, chars.len()).to_owned();
    proof {
        assert(line@.subrange(start as int, chars@.len() as int) =~= line@.skip(start as int));
        assert(texts(fields@.push(last)) =~= texts(fields@) + seq![last@]);
    }
    fields.push(last);
    fields
}

/// `s` with every occurrence of `pattern` replaced, from left to right.
pub open spec fn replace_all(s: Seq<char>, pattern: Seq<char>, with: Seq<char>) -> Seq<char>
    recommends
        pattern.len() > 0,
    decreases s.len(),
{
    if s.len() < pattern.len() || s.len() == 0 || pattern.len() == 0 {
        s
    } else if s.take(pattern.len() as int) == pattern {
        with + replace_all(s.skip(pattern.len() as int), pattern, with)
    } else {
        seq![s[0]] + replace_all(s.skip(1), pattern, with)
    }
}

fn occurs_at(chars: &Vec<char>, pattern: &Vec<char>, at: usize) -> (occurs: bool)
    requires
        at + pattern@.len() <= chars@.len(),
    ensures
        occurs == (chars@.skip(at as int).take(pattern@.len() as int) == pattern@),
{
    let end: usize = chars.len();
    let mut i: usize = 0;
    while i < pattern.len()
        invariant
            i <= pattern@.len(),
            end == chars@.len(),
            at + pattern@.len() <= end,
            forall|j: int| 0 <= j < i ==> chars@[at + j] == pattern@[j],
        decreases pattern@.len() - i,
    {
        if chars[at + i] != pattern[i] {
            assert(chars@.skip(at as int).take(pattern@.len() as int)[i as int] == chars@[at + i]);
            return false;
        }
        i = i + 1;
    }
    assert(chars@.skip(at as int).take(pattern@.len() as int) =~= pattern@);
    true
}

/// Fills in a template: replaces every occurrence of `pattern`.
pub fn fill_in(template: &str, pattern: &str, with: &str) -> (filled: String)
    requires
        pattern@.len() > 0,
    ensures
        filled@ == replace_all(template@, pattern@, with@),
{
    let chars = chars_of(template);
    let wanted = chars_of(pattern);
    let mut filled = String::new();
    let mut start: usize = 0;  // what lies before is in `filled`
    let mut at: usize = 0;  // no occurrence begins between `start` and here
    assert(template@.skip(0) =~= template@);
    assert(template@.subrange(0, 0) =~= Seq::<char>::empty());
    assert(filled@ + template@.subrange(0, 0) + template@.skip(0) =~= template@);
    while chars.len() - at >= wanted.len()
        invariant
            chars@ == template@,
            wanted@ == pattern@,
            pattern@.len() > 0,
            start <= at <= chars@.len(),
            filled@ + template@.subrange(start as int, at as int) + replace_all(
                template@.skip(at as int),
                pattern@,
                with@,
            ) == replace_all(template@, pattern@, with@),
        decreases chars@.len() - at,
    {
        let ghost rest = template@.skip(at as int);
        if occurs_at(&chars, &wanted, at) {
            let ghost kept = template@.subrange(start as int, at as int);
            let ghost before = filled@;
            filled.append(template.substring_char(start, at));
            filled.append(with);
            proof {
                assert(rest.skip(pattern@.len() as int) =~= template@.skip(at + pattern@.len()));
                let next = (at + pattern@.len()) as int;
                assert(template@.subrange(next, next) =~= Seq::<char>::empty());
                let tail = replace_all(template@.skip(next), pattern@, with@);
                assert(filled@ + template@.subrange(next, next) + tail =~= before + kept + (with@
                    + tail));
            }
            at = at + wanted.len();
            start = at;
        } else {
            proof {
                assert(rest.skip(1) =~= template@.skip(at + 1));
                let tail = replace_all(template@.skip(at + 1), pattern@, with@);
                assert(filled@ + template@.subrange(start as int, at + 1) + tail =~= filled@
                    + template@.subrange(start as int, at as int) + (seq![rest[0]] + tail));
            }
            at = at + 1;
        }
    }
    proof {
        assert(template@.subrange(start as int, at as int) + template@.skip(at as int)
            =~= template@.subrange(start as int, chars@.len() as int));
        assert(filled@ + template@.subrange(start as int, chars@.len() as int) =~= filled@
            + template@.subrange(start as int, at as int) + template@.skip(at as int));
    }
    filled.append(template.substring_char(start, chars.len()));
    filled
}

} // verus!
