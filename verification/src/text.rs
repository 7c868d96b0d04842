//! Characters, character sequences and decimal numerals.
//!
//! Rules about text are stated on `Seq<char>`, the view that `str`, `String` and
//! `Vec<char>` share, so every position in this crate counts characters.

use vstd::prelude::*;

verus! {

/// `str`'s `PartialEq::eq`: two string slices are equal when they hold the same characters.
pub assume_specification[ <str as PartialEq>::eq ](left: &str, right: &str) -> (same: bool)
    ensures
        same == (left@ == right@),
;

/// `String::push`: appends one character to the end and changes nothing before it.
pub assume_specification[ String::push ](string: &mut String, character: char)
    ensures
        final(string)@ == old(string)@.push(character),
;

#[verifier::allow_in_spec]
pub fn is_ascii(character: char) -> bool
    returns
        (character as u32) < 0x80,
{
    (character as u32) < 0x80
}

#[verifier::allow_in_spec]
pub fn is_ascii_digit(character: char) -> bool
    returns
        '0' <= character && character <= '9',
{
    '0' <= character && character <= '9'
}

#[verifier::allow_in_spec]
pub fn is_ascii_uppercase(character: char) -> bool
    returns
        'A' <= character && character <= 'Z',
{
    'A' <= character && character <= 'Z'
}

#[verifier::allow_in_spec]
pub fn is_ascii_lowercase(character: char) -> bool
    returns
        'a' <= character && character <= 'z',
{
    'a' <= character && character <= 'z'
}

#[verifier::allow_in_spec]
pub fn is_ascii_alphabetic(character: char) -> bool
    returns
        is_ascii_uppercase(character) || is_ascii_lowercase(character),
{
    is_ascii_uppercase(character) || is_ascii_lowercase(character)
}

/// Whether a character belongs to an ASCII word: a letter, a digit or an underscore.
#[verifier::allow_in_spec]
pub fn ascii_word_character(character: char) -> bool
    returns
        is_ascii_alphabetic(character) || is_ascii_digit(character) || character == '_',
{
    is_ascii_alphabetic(character) || is_ascii_digit(character) || character == '_'
}

/// Whether a character lies in the block range treated as Chinese text.
#[verifier::allow_in_spec]
pub fn is_cjk(character: char) -> bool
    returns
        0x3400 <= character as u32 && character as u32 <= 0x9fff,
{
    0x3400 <= character as u32 && character as u32 <= 0x9fff
}

/// The code points with the Unicode property `White_Space`.
pub open spec fn white_space(code: u32) -> bool {
    ||| 0x9 <= code <= 0xd
    ||| code == 0x20
    ||| code == 0x85
    ||| code == 0xa0
    ||| code == 0x1680
    ||| 0x2000 <= code <= 0x200a
    ||| code == 0x2028
    ||| code == 0x2029
    ||| code == 0x202f
    ||| code == 0x205f
    ||| code == 0x3000
}

/// Whether a character has the Unicode property `White_Space`.
#[verifier::allow_in_spec]
pub fn is_whitespace(character: char) -> bool
    returns
        white_space(character as u32),
{
    let code: u32 = character as u32;
    (0x9 <= code && code <= 0xd) || code == 0x20 || code == 0x85 || code == 0xa0 || code == 0x1680
        || (0x2000 <= code && code <= 0x200a) || code == 0x2028 || code == 0x2029 || code == 0x202f
        || code == 0x205f || code == 0x3000
}

/// An ASCII lower-case letter becomes its upper-case form; other characters stay.
pub open spec fn upper(character: char) -> char {
    if is_ascii_lowercase(character) {
        (character as int - 32) as char
    } else {
        character
    }
}

/// An ASCII upper-case letter becomes its lower-case form; other characters stay.
pub open spec fn lower(character: char) -> char {
    if is_ascii_uppercase(character) {
        (character as int + 32) as char
    } else {
        character
    }
}

pub fn to_ascii_uppercase(character: char) -> (result: char)
    ensures
        result == upper(character),
{
    if is_ascii_lowercase(character) {
        (character as u8 - 32) as char
    } else {
        character
    }
}

pub fn to_ascii_lowercase(character: char) -> (result: char)
    ensures
        result == lower(character),
{
    if is_ascii_uppercase(character) {
        (character as u8 + 32) as char
    } else {
        character
    }
}

/// The characters of a string slice.
pub fn chars_of(text: &str) -> (characters: Vec<char>)
    ensures
        characters@ == text@,
{
    let mut characters: Vec<char> = Vec::new();
    for character in iter: text.chars()
        invariant
            characters@ == iter.seq().take(iter.index()),
    {
        characters.push(character);
    }
    characters
}

/// The string that holds the given characters.
pub fn string_of(characters: &[char]) -> (text: String)
    ensures
        text@ == characters@,
{
    let mut text: String = String::new();
    for index in 0..characters.len()
        invariant
            text@ == characters@.take(index as int),
    {
        text.push(characters[index]);
    }
    assert(characters@.take(characters@.len() as int) == characters@);
    text
}

/// Appends the characters of `tail` to `characters`.
pub fn push_text(characters: &mut Vec<char>, tail: &str)
    ensures
        final(characters)@ == old(characters)@ + tail@,
{
    for character in iter: tail.chars()
        invariant
            characters@ == old(characters)@ + iter.seq().take(iter.index()),
    {
        characters.push(character);
    }
}

/// Appends a slice of characters to `characters`.
pub fn push_chars(characters: &mut Vec<char>, tail: &[char])
    ensures
        final(characters)@ == old(characters)@ + tail@,
{
    for index in 0..tail.len()
        invariant
            characters@ == old(characters)@ + tail@.take(index as int),
    {
        characters.push(tail[index]);
    }
    assert(tail@.take(tail@.len() as int) == tail@);
}

/// The number of characters of a string slice.
pub fn char_count(text: &str) -> (count: usize)
    ensures
        count == text@.len(),
{
    text.unicode_len()
}

/// `pattern` stands in `text` from position `at`.
pub open spec fn occurs_at(text: Seq<char>, pattern: Seq<char>, at: int) -> bool {
    0 <= at && at + pattern.len() <= text.len() && text.subrange(at, at + pattern.len()) == pattern
}

/// `pattern` stands somewhere in `text`.
pub open spec fn contains_text(text: Seq<char>, pattern: Seq<char>) -> bool {
    exists|at: int| occurs_at(text, pattern, at)
}

/// The first position from `start` on where `pattern` stands in `text`.
pub open spec fn next_text(text: Seq<char>, pattern: Seq<char>, start: int) -> Option<int>
    decreases text.len() + 1 - start,
{
    if start < 0 || start + pattern.len() > text.len() {
        None
    } else if occurs_at(text, pattern, start) {
        Some(start)
    } else {
        next_text(text, pattern, start + 1)
    }
}

/// Decides whether `pattern` stands in `text` from position `at`.
pub fn matches_at(text: &[char], pattern: &[char], at: usize) -> (found: bool)
    ensures
        found == occurs_at(text@, pattern@, at as int),
{
    if at > text.len() || text.len() - at < pattern.len() {
        return false;
    }
    for index in 0..pattern.len()
        invariant
            at + pattern.len() <= text.len(),
            forall|earlier: int| 0 <= earlier < index ==> text[at + earlier] == pattern[earlier],
    {
        if text[at + index] != pattern[index] {
            assert(text@.subrange(at as int, at + pattern.len())[index as int] != pattern[index
                as int]);
            return false;
        }
    }
    assert(text@.subrange(at as int, at + pattern.len()) =~= pattern@);
    true
}

/// Finds the first position from `start` on where `pattern` stands in `text`.
pub fn find_text(text: &[char], pattern: &[char], start: usize) -> (found: Option<usize>)
    ensures
        match found {
            Some(at) => next_text(text@, pattern@, start as int) == Some(at as int) && start <= at
                && occurs_at(text@, pattern@, at as int) && forall|other: int|
                start <= other < at ==> !occurs_at(text@, pattern@, other),
            None => next_text(text@, pattern@, start as int) is None && forall|at: int|
                start <= at ==> !occurs_at(text@, pattern@, at),
        },
{
    if start > text.len() {
        return None;
    }
    let mut at: usize = start;
    while at < text.len()
        invariant
            start <= at <= text.len(),
            next_text(text@, pattern@, start as int) == next_text(text@, pattern@, at as int),
            forall|earlier: int| start <= earlier < at ==> !occurs_at(text@, pattern@, earlier),
        decreases text.len() - at,
    {
        if matches_at(text, pattern, at) {
            return Some(at);
        }
        if text.len() - at < pattern.len() {
            return None;
        }
        at = at + 1;
    }
    if matches_at(text, pattern, at) {
        return Some(at);
    }
    assert(next_text(text@, pattern@, at + 1) is None);
    None
}

/// Decides whether `pattern` stands somewhere in `text`.
pub fn includes(text: &[char], pattern: &str) -> (found: bool)
    ensures
        found == contains_text(text@, pattern@),
{
    let pattern = chars_of(pattern);
    let found = find_text(text, &pattern, 0);
    proof {
        if contains_text(text@, pattern@) {
            let at = choose|at: int| occurs_at(text@, pattern@, at);
            assert(occurs_at(text@, pattern@, at));
        }
    }
    found.is_some()
}

/// Decides whether two slices hold the same characters.
pub fn same_chars(left: &[char], right: &[char]) -> (same: bool)
    ensures
        same == (left@ == right@),
{
    if left.len() != right.len() {
        return false;
    }
    for index in 0..left.len()
        invariant
            left.len() == right.len(),
            forall|earlier: int| 0 <= earlier < index ==> left[earlier] == right[earlier],
    {
        if left[index] != right[index] {
            return false;
        }
    }
    assert(left@ =~= right@);
    true
}

/// Decides whether a slice holds the characters of a string slice.
pub fn is_text(characters: &[char], text: &str) -> (same: bool)
    ensures
        same == (characters@ == text@),
{
    same_chars(characters, &chars_of(text))
}

/// The slice `characters[from..to]` as a vector.
pub fn part(characters: &[char], from: usize, to: usize) -> (result: Vec<char>)
    requires
        from <= to <= characters.len(),
    ensures
        result@ == characters@.subrange(from as int, to as int),
{
    let mut result: Vec<char> = Vec::new();
    for index in from..to
        invariant
            from <= to <= characters.len(),
            result@ == characters@.subrange(from as int, index as int),
    {
        result.push(characters[index]);
    }
    result
}

/// A copy of the characters with `character` put first.
pub fn prepend(character: char, characters: &[char]) -> (result: Vec<char>)
    ensures
        result@ == seq![character] + characters@,
{
    let mut result: Vec<char> = Vec::new();
    result.push(character);
    push_chars(&mut result, characters);
    result
}

/// Every character of `text` is an ASCII digit.
pub open spec fn all_ascii_digits(text: Seq<char>) -> bool {
    forall|index: int| 0 <= index < text.len() ==> is_ascii_digit(#[trigger] text[index])
}

/// Every character of `text` is an ASCII letter, and there is one.
pub open spec fn ascii_letters(text: Seq<char>) -> bool {
    text.len() > 0 && forall|index: int|
        0 <= index < text.len() ==> is_ascii_alphabetic(#[trigger] text[index])
}

pub fn are_ascii_digits(text: &[char]) -> (result: bool)
    ensures
        result == all_ascii_digits(text@),
{
    for index in 0..text.len()
        invariant
            forall|earlier: int|
                0 <= earlier < index ==> is_ascii_digit(#[trigger] text@[earlier]),
    {
        if !is_ascii_digit(text[index]) {
            assert(!is_ascii_digit(text@[index as int]));
            return false;
        }
    }
    true
}

pub fn are_ascii_letters(text: &[char]) -> (result: bool)
    ensures
        result == ascii_letters(text@),
{
    for index in 0..text.len()
        invariant
            forall|earlier: int|
                0 <= earlier < index ==> is_ascii_alphabetic(#[trigger] text@[earlier]),
    {
        if !is_ascii_alphabetic(text[index]) {
            assert(!is_ascii_alphabetic(text@[index as int]));
            return false;
        }
    }
    text.len() > 0
}

/// How many white-space characters `text` begins with.
pub open spec fn leading_space(text: Seq<char>) -> nat
    decreases text.len(),
{
    if text.len() > 0 && is_whitespace(text[0]) {
        1 + leading_space(text.skip(1))
    } else {
        0
    }
}

/// `text` without the white space it begins with.
pub open spec fn trim_start(text: Seq<char>) -> Seq<char> {
    text.skip(leading_space(text) as int)
}

/// `text` without the white space it ends in.
pub open spec fn trim_end(text: Seq<char>) -> Seq<char>
    decreases text.len(),
{
    if text.len() > 0 && is_whitespace(text.last()) {
        trim_end(text.drop_last())
    } else {
        text
    }
}

/// `text` without the white space at both ends.
pub open spec fn trim(text: Seq<char>) -> Seq<char> {
    trim_end(trim_start(text))
}

/// Counts the white-space characters that the slice begins with.
pub fn count_leading_space(text: &[char]) -> (count: usize)
    ensures
        count == leading_space(text@),
        count <= text.len(),
{
    let mut count: usize = 0;
    assert(text@.skip(0) =~= text@);
    while count < text.len() && is_whitespace(text[count])
        invariant
            count <= text.len(),
            leading_space(text@) == count + leading_space(text@.skip(count as int)),
        decreases text.len() - count,
    {
        assert(text@.skip(count as int).skip(1) =~= text@.skip(count + 1));
        count = count + 1;
    }
    count
}

/// Removes the white space that the vector ends in.
pub fn drop_trailing_space(text: &mut Vec<char>)
    ensures
        final(text)@ == trim_end(old(text)@),
{
    while text.len() > 0 && is_whitespace(text[text.len() - 1])
        invariant
            trim_end(text@) == trim_end(old(text)@),
        decreases text.len(),
    {
        let ghost before = text@;
        text.pop();
        assert(text@ =~= before.drop_last());
    }
}

/// The characters without the white space at both ends.
pub fn trimmed(text: &[char]) -> (result: Vec<char>)
    ensures
        result@ == trim(text@),
{
    let start: usize = count_leading_space(text);
    let mut result: Vec<char> = part(text, start, text.len());
    assert(result@ =~= trim_start(text@));
    drop_trailing_space(&mut result);
    result
}

/// The decimal digit of value `digit`.
pub open spec fn digit_char(digit: int) -> char {
    (48 + digit) as char
}

/// The decimal numeral of a natural number, without leading zeros.
pub open spec fn decimal(value: nat) -> Seq<char>
    decreases value,
{
    if value < 10 {
        seq![digit_char(value as int)]
    } else {
        decimal(value / 10).push(digit_char((value % 10) as int))
    }
}

pub fn decimal_text(value: u64) -> (text: Vec<char>)
    ensures
        text@ == decimal(value as nat),
    decreases value,
{
    if value < 10 {
        let mut text: Vec<char> = Vec::new();
        text.push((48 + value as u8) as char);
        text
    } else {
        let mut text: Vec<char> = decimal_text(value / 10);
        text.push((48 + (value % 10) as u8) as char);
        text
    }
}

/// The digits of a numeral up to position `count`, with a comma before each digit whose
/// distance from the end is a multiple of three, except before the first digit.
pub open spec fn grouped(digits: Seq<char>, count: int) -> Seq<char>
    decreases count,
{
    if count <= 0 {
        Seq::empty()
    } else {
        let before = grouped(digits, count - 1);
        if count > 1 && (digits.len() - (count - 1)) % 3 == 0 {
            before.push(',').push(digits[count - 1])
        } else {
            before.push(digits[count - 1])
        }
    }
}

pub fn group_digits(digits: &[char]) -> (text: Vec<char>)
    ensures
        text@ == grouped(digits@, digits@.len() as int),
{
    let mut text: Vec<char> = Vec::new();
    for index in 0..digits.len()
        invariant
            text@ == grouped(digits@, index as int),
    {
        if index > 0 && (digits.len() - index) % 3 == 0 {
            text.push(',');
        }
        text.push(digits[index]);
    }
    text
}

/// The two-digit numeral of a number, with a leading zero where it has only one digit.
pub open spec fn two_digits(value: nat) -> Seq<char> {
    if value < 10 {
        seq!['0'] + decimal(value)
    } else {
        decimal(value)
    }
}

pub fn two_digit_text(value: u64) -> (text: Vec<char>)
    ensures
        text@ == two_digits(value as nat),
{
    let digits: Vec<char> = decimal_text(value);
    if value < 10 {
        prepend('0', &digits)
    } else {
        digits
    }
}

/// The position of the first `mark` in `text` from `start` on, or the length of `text`.
pub open spec fn next_mark(text: Seq<char>, mark: char, start: int) -> int
    decreases text.len() - start,
{
    if start >= text.len() {
        text.len() as int
    } else if text[start] == mark {
        start
    } else {
        next_mark(text, mark, start + 1)
    }
}

pub fn find_mark(text: &[char], mark: char, start: usize) -> (at: usize)
    requires
        start <= text.len(),
    ensures
        at == next_mark(text@, mark, start as int),
        start <= at <= text.len(),
        at < text.len() ==> text@[at as int] == mark,
{
    let mut at: usize = start;
    while at < text.len() && text[at] != mark
        invariant
            start <= at <= text.len(),
            next_mark(text@, mark, start as int) == next_mark(text@, mark, at as int),
        decreases text.len() - at,
    {
        at = at + 1;
    }
    at
}

/// `line` without one carriage return at its end.
pub open spec fn strip_return(line: Seq<char>) -> Seq<char> {
    if line.len() > 0 && line.last() == '\r' {
        line.drop_last()
    } else {
        line
    }
}

/// The lines of `text` from position `start` on. A line ends at a line feed, which may follow a
/// carriage return; the last line need not have an end.
pub open spec fn lines_from(text: Seq<char>, start: int) -> Seq<Seq<char>>
    decreases text.len() - start,
{
    if start < 0 || start >= text.len() {
        Seq::empty()
    } else {
        let end = next_mark(text, '\n', start);
        if end < start || end >= text.len() {
            seq![text.subrange(start, text.len() as int)]
        } else {
            seq![strip_return(text.subrange(start, end))] + lines_from(text, end + 1)
        }
    }
}

/// The lines of `text`.
pub open spec fn lines(text: Seq<char>) -> Seq<Seq<char>> {
    lines_from(text, 0)
}

/// The views of vectors of characters.
pub open spec fn char_views(texts: Seq<Vec<char>>) -> Seq<Seq<char>> {
    Seq::new(texts.len(), |index: int| texts[index]@)
}

/// Splits a text into its lines.
pub fn split_lines(text: &[char]) -> (result: Vec<Vec<char>>)
    ensures
        char_views(result@) == lines(text@),
{
    let mut result: Vec<Vec<char>> = Vec::new();
    let mut start: usize = 0;
    assert(char_views(result@) + lines_from(text@, 0) =~= lines(text@));
    while start < text.len()
        invariant
            start <= text.len(),
            char_views(result@) + lines_from(text@, start as int) == lines(text@),
        decreases text.len() - start,
    {
        let end: usize = find_mark(text, '\n', start);
        let ghost before = result@;
        let mut line: Vec<char> = part(text, start, end);
        if end == text.len() {
            result.push(line);
            assert(char_views(result@) =~= char_views(before) + lines_from(text@, start as int));
            assert(char_views(result@) + lines_from(text@, end as int) =~= char_views(result@));
            start = end;
        } else {
            if line.len() > 0 && line[line.len() - 1] == '\r' {
                line.pop();
            }
            assert(line@ =~= strip_return(text@.subrange(start as int, end as int)));
            result.push(line);
            assert(char_views(result@) + lines_from(text@, end + 1) =~= char_views(before)
                + lines_from(text@, start as int));
            start = end + 1;
        }
    }
    assert(char_views(result@) + lines_from(text@, start as int) =~= char_views(result@));
    result
}

proof fn lemma_mark_found(content: Seq<char>, mark: char, start: int, at: int)
    requires
        0 <= start <= at <= content.len(),
        at < content.len() ==> content[at] == mark,
        forall|earlier: int| start <= earlier < at ==> content[earlier] != mark,
    ensures
        next_mark(content, mark, start) == at,
    decreases at - start,
{
    if start < at {
        lemma_mark_found(content, mark, start + 1, at);
    }
}

/// A text falls into lines at its line feeds: from the start of a line on, the first line is what
/// stands before the next line feed, without a carriage return, and the others are those behind it.
pub proof fn law_lines_end_at_line_feeds(content: Seq<char>, start: int, at: int)
    requires
        0 <= start <= at < content.len(),
        content[at] == '\n',
        forall|earlier: int| start <= earlier < at ==> content[earlier] != '\n',
    ensures
        lines_from(content, start).len() > 0,
        start == at || content[at - 1] != '\r' ==> lines_from(content, start)[0]
            == content.subrange(start, at),
        start < at && content[at - 1] == '\r' ==> lines_from(content, start)[0]
            == content.subrange(start, at - 1),
        lines_from(content, start).skip(1) == lines_from(content, at + 1),
{
    lemma_mark_found(content, '\n', start, at);
    let line = content.subrange(start, at);
    if start < at {
        assert(line.last() == content[at - 1]);
        assert(line.drop_last() =~= content.subrange(start, at - 1));
    }
    assert(lines_from(content, start).skip(1) =~= lines_from(content, at + 1));
}

}
