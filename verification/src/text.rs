//! Characters and slices of text, as the parsers need them.

use vstd::prelude::*;
use vstd::string::*;

verus! {

/// A space or a tab.
pub open spec fn blank(c: char) -> bool {
    c == ' ' || c == '\t'
}

/// A character with the Unicode property `White_Space`.
pub open spec fn whitespace(c: char) -> bool {
    let code = c as u32;
    ||| 0x09 <= code <= 0x0D
    ||| code == 0x20
    ||| code == 0x85
    ||| code == 0xA0
    ||| code == 0x1680
    ||| 0x2000 <= code <= 0x200A
    ||| code == 0x2028
    ||| code == 0x2029
    ||| code == 0x202F
    ||| code == 0x205F
    ||| code == 0x3000
}

/// An ASCII decimal digit.
pub open spec fn digit(c: char) -> bool {
    '0' <= c <= '9'
}

/// A printable ASCII character other than the space.
pub open spec fn graphic(c: char) -> bool {
    '!' <= c <= '~'
}

/// Neither a carriage return nor a line feed.
pub open spec fn within_line(c: char) -> bool {
    c != '\r' && c != '\n'
}

pub fn is_blank(c: char) -> (b: bool)
    ensures
        b == blank(c),
{
    c == ' ' || c == '\t'
}

pub fn is_whitespace(c: char) -> (b: bool)
    ensures
        b == whitespace(c),
{
    let code: u32 = c as u32;
    (0x09 <= code && code <= 0x0D) || code == 0x20 || code == 0x85 || code == 0xA0 || code
        == 0x1680 || (0x2000 <= code && code <= 0x200A) || code == 0x2028 || code == 0x2029 || code
        == 0x202F || code == 0x205F || code == 0x3000
}

pub fn is_digit(c: char) -> (b: bool)
    ensures
        b == digit(c),
{
    '0' <= c && c <= '9'
}

pub fn is_graphic(c: char) -> (b: bool)
    ensures
        b == graphic(c),
{
    '!' <= c && c <= '~'
}

pub fn is_within_line(c: char) -> (b: bool)
    ensures
        b == within_line(c),
{
    c != '\r' && c != '\n'
}

/// The number of leading characters of `input` that are in `class`.
pub open spec fn leading(input: Seq<char>, class: spec_fn(char) -> bool) -> nat
    decreases input.len(),
{
    if input.len() > 0 && class(input[0]) {
        1 + leading(input.skip(1), class)
    } else {
        0
    }
}

/// The number of trailing characters of `input` that are in `class`.
pub open spec fn trailing(input: Seq<char>, class: spec_fn(char) -> bool) -> nat
    decreases input.len(),
{
    if input.len() > 0 && class(input.last()) {
        1 + trailing(input.drop_last(), class)
    } else {
        0
    }
}

/// `input` without its leading characters in `class`.
pub open spec fn without_leading(input: Seq<char>, class: spec_fn(char) -> bool) -> Seq<char> {
    input.skip(leading(input, class) as int)
}

/// `input` without its leading and trailing whitespace.
pub open spec fn trimmed(input: Seq<char>) -> Seq<char> {
    let tail = without_leading(input, |c: char| whitespace(c));
    tail.take(tail.len() - trailing(tail, |c: char| whitespace(c)))
}

/// The run of leading characters in `class` ends at `count`.
pub proof fn lemma_leading_is(input: Seq<char>, class: spec_fn(char) -> bool, count: nat)
    requires
        count <= input.len(),
        forall|i: int| 0 <= i < count ==> class(#[trigger] input[i]),
        count == input.len() || !class(input[count as int]),
    ensures
        leading(input, class) == count,
    decreases count,
{
    if count > 0 {
        let tail = input.skip(1);
        lemma_leading_is(tail, class, (count - 1) as nat);
    }
}

/// The run of trailing characters in `class` has `count` characters.
pub proof fn lemma_trailing_is(input: Seq<char>, class: spec_fn(char) -> bool, count: nat)
    requires
        count <= input.len(),
        forall|i: int| input.len() - count <= i < input.len() ==> class(#[trigger] input[i]),
        count == input.len() || !class(input[input.len() - count - 1]),
    ensures
        trailing(input, class) == count,
    decreases count,
{
    if count > 0 {
        let front = input.drop_last();
        lemma_trailing_is(front, class, (count - 1) as nat);
    }
}

/// The run of leading characters in `class` is no longer than the input, and
/// is made of characters in `class` only; the character after it is not in
/// `class`.
pub proof fn lemma_leading_run(input: Seq<char>, class: spec_fn(char) -> bool)
    ensures
        leading(input, class) <= input.len(),
        forall|i: int| 0 <= i < leading(input, class) ==> class(#[trigger] input[i]),
        leading(input, class) < input.len() ==> !class(input[leading(input, class) as int]),
    decreases input.len(),
{
    if input.len() > 0 && class(input[0]) {
        let tail = input.skip(1);
        lemma_leading_run(tail, class);
        assert forall|i: int| 0 <= i < leading(input, class) implies class(#[trigger] input[i]) by {
            if i > 0 {
                assert(input[i] == tail[i - 1]);
            }
        }
    }
}

/// The first character of `input`, if it has one.
pub fn first_char(input: &str) -> (first: Option<char>)
    ensures
        match first {
            Some(c) => input@.len() > 0 && c == input@[0],
            None => input@.len() == 0,
        },
{
    if input.is_empty() {
        None
    } else {
        Some(input.get_char(0))
    }
}

/// `input` without its first `count` characters.
pub fn drop_chars<'a>(input: &'a str, count: usize) -> (rest: &'a str)
    requires
        count <= input@.len(),
    ensures
        rest@ == input@.skip(count as int),
{
    let len = input.unicode_len();
    input.substring_char(count, len)
}

/// The first `count` characters of `input`.
pub fn take_chars<'a>(input: &'a str, count: usize) -> (front: &'a str)
    requires
        count <= input@.len(),
    ensures
        front@ == input@.take(count as int),
{
    input.substring_char(0, count)
}

/// The length of `prefix` in characters where `input` starts with it.
pub fn starts_with(input: &str, prefix: &str) -> (len: Option<usize>)
    ensures
        match len {
            Some(n) => prefix@.is_prefix_of(input@) && n == prefix@.len(),
            None => !prefix@.is_prefix_of(input@),
        },
{
    let wanted = prefix.unicode_len();
    let given = input.unicode_len();
    if wanted > given {
        return None;
    }
    let mut i: usize = 0;
    while i < wanted
        invariant
            i <= wanted <= given,
            wanted == prefix@.len(),
            given == input@.len(),
            forall|j: int| 0 <= j < i ==> prefix@[j] == input@[j],
        decreases wanted - i,
    {
        if prefix.get_char(i) != input.get_char(i) {
            return None;
        }
        i += 1;
    }
    Some(wanted)
}

/// `input` without its leading spaces and tabs.
pub fn skip_blanks<'a>(input: &'a str) -> (rest: &'a str)
    ensures
        rest@ == without_leading(input@, |c: char| blank(c)),
{
    let len = input.unicode_len();
    let mut i: usize = 0;
    while i < len && is_blank(input.get_char(i))
        invariant
            i <= len,
            len == input@.len(),
            forall|j: int| 0 <= j < i ==> blank(#[trigger] input@[j]),
        decreases len - i,
    {
        i += 1;
    }
    proof {
        lemma_leading_is(input@, |c: char| blank(c), i as nat);
    }
    input.substring_char(i, len)
}

/// `input` without its leading whitespace.
pub fn skip_whitespace<'a>(input: &'a str) -> (rest: &'a str)
    ensures
        rest@ == without_leading(input@, |c: char| whitespace(c)),
{
    let len = input.unicode_len();
    let mut i: usize = 0;
    while i < len && is_whitespace(input.get_char(i))
        invariant
            i <= len,
            len == input@.len(),
            forall|j: int| 0 <= j < i ==> whitespace(#[trigger] input@[j]),
        decreases len - i,
    {
        i += 1;
    }
    proof {
        lemma_leading_is(input@, |c: char| whitespace(c), i as nat);
    }
    input.substring_char(i, len)
}

/// `input` without its leading and trailing whitespace.
pub fn trim<'a>(input: &'a str) -> (inner: &'a str)
    ensures
        inner@ == trimmed(input@),
{
    let tail = skip_whitespace(input);
    let len = tail.unicode_len();
    let mut end: usize = len;
    while end > 0 && is_whitespace(tail.get_char(end - 1))
        invariant
            end <= len,
            len == tail@.len(),
            forall|j: int| end <= j < len ==> whitespace(#[trigger] tail@[j]),
        decreases end,
    {
        end -= 1;
    }
    proof {
        lemma_trailing_is(tail@, |c: char| whitespace(c), (len - end) as nat);
    }
    tail.substring_char(0, end)
}

} // verus!
