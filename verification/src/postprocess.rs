//! Recognised tokens become readable text.

use std::collections::HashSet;

use vstd::prelude::*;

use crate::english;
use crate::english::{apply_english_grammar, apply_spoken_web_semantics, format_english_words};
use crate::numeric;
use crate::numeric::{are_sequence_digits, is_digit_character};
use crate::pieces;
use crate::pieces::{convert_numeric, NumericPiece};
use crate::punctuation;
use crate::punctuation::{punctuate, Marks};
use crate::semantics;
use crate::semantics::{apply_semantics, are_features};
use crate::tables;
use crate::tables::{NumericNotChangeList, ReplacementError, ReplacementTable};
use crate::text;
use crate::text::{
    are_ascii_digits, char_count, chars_of, find_mark, includes, is_ascii, is_ascii_alphabetic,
    is_ascii_digit, is_cjk, part, prepend, string_of, trimmed,
};
use crate::types;
use crate::types::{
    concat_chars, joined_processed_text, joined_text, ProcessedWord, Rendered, RenderedWord, Word,
};
use crate::words;
use crate::words::{
    coalesce_per_mille, coalesce_within_tokens, has_prefix_symbol, merge_text_pieces,
    numeric_source_character, token_boundaries,
};

verus! {

/// How the finished text is written.
#[derive(Clone, Copy, Debug)]
pub struct PostprocessOptions {
    pub english_punctuation: bool,
}

impl Default for PostprocessOptions {
    fn default() -> (options: Self)
        ensures
            !options.english_punctuation,
    {
        PostprocessOptions { english_punctuation: false }
    }
}

/// A finished text and the tokens it is made of.
#[derive(Debug)]
pub struct PostprocessResult {
    pub text: String,
    pub tokens: Vec<String>,
}

/// The view of a [`PostprocessResult`].
#[verifier::ext_equal]
pub struct Finished {
    pub text: Seq<char>,
    pub tokens: Seq<Seq<char>>,
}

impl View for PostprocessResult {
    type V = Finished;

    open spec fn view(&self) -> Finished {
        Finished { text: self.text@, tokens: types::text_views(self.tokens@) }
    }
}

impl Default for PostprocessResult {
    fn default() -> (result: Self)
        ensures
            result@ == (Finished { text: Seq::empty(), tokens: Seq::empty() }),
    {
        let result = PostprocessResult { text: String::new(), tokens: Vec::new() };
        assert(result@.tokens =~= Seq::empty());
        result
    }
}

/// The ASCII mark in place of a full-width one; other characters stay.
pub open spec fn ascii_mark(character: char) -> char {
    if character == '\u{ff0c}' || character == '\u{3001}' {
        ','
    } else if character == '\u{3002}' {
        '.'
    } else if character == '\u{ff01}' {
        '!'
    } else if character == '\u{ff1f}' {
        '?'
    } else if character == '\u{ff1a}' {
        ':'
    } else if character == '\u{ff1b}' {
        ';'
    } else {
        character
    }
}

/// A text as the options write it.
pub open spec fn written(content: Seq<char>, english_punctuation: bool) -> Seq<char> {
    if english_punctuation {
        Seq::new(content.len(), |index: int| ascii_mark(content[index]))
    } else {
        content
    }
}

fn to_ascii_mark(character: char) -> (result: char)
    ensures
        result == ascii_mark(character),
{
    match character {
        '\u{ff0c}' | '\u{3001}' => ',',
        '\u{3002}' => '.',
        '\u{ff01}' => '!',
        '\u{ff1f}' => '?',
        '\u{ff1a}' => ':',
        '\u{ff1b}' => ';',
        _ => character,
    }
}

/// Writes a text as the options ask.
fn apply_output_options(content: Vec<char>, options: &PostprocessOptions) -> (result: Vec<char>)
    ensures
        result@ == written(content@, options.english_punctuation),
{
    if !options.english_punctuation {
        return content;
    }
    let mut result: Vec<char> = Vec::new();
    for index in 0..content.len()
        invariant
            result@ == written(content@, true).take(index as int),
    {
        result.push(to_ascii_mark(content[index]));
    }
    assert(written(content@, true).take(content@.len() as int) =~= written(content@, true));
    result
}

/// Writing a text twice changes nothing more.
pub proof fn law_output_options_are_idempotent(content: Seq<char>, english_punctuation: bool)
    ensures
        written(written(content, english_punctuation), english_punctuation) == written(
            content,
            english_punctuation,
        ),
{
    assert(written(written(content, english_punctuation), english_punctuation) =~= written(
        content,
        english_punctuation,
    ));
}

/// Postprocessing without models.
#[derive(Clone, Copy, Debug)]
pub struct Postprocessor {
    options: PostprocessOptions,
}

impl Postprocessor {
    pub closed spec fn options(self) -> PostprocessOptions {
        self.options
    }

    pub fn new(options: PostprocessOptions) -> (postprocessor: Self)
        ensures
            postprocessor.options() == options,
    {
        Postprocessor { options }
    }

    /// Trims a text and writes it as the options ask; the tokens stay.
    pub fn apply(&self, content: &str, tokens: Vec<String>) -> (result: PostprocessResult)
        ensures
            result@ == (Finished {
                text: written(text::trim(content@), self.options().english_punctuation),
                tokens: types::text_views(tokens@),
            }),
    {
        let trimmed_content: Vec<char> = trimmed(&chars_of(content));
        PostprocessResult {
            text: string_of(&apply_output_options(trimmed_content, &self.options)),
            tokens,
        }
    }
}

/// A zero hour is written with two digits.
pub open spec fn short_midnight(content: Seq<char>, index: int) -> bool {
    content[index] == '0' && index + 1 < content.len() && content[index + 1] == ':' && (index == 0
        || !is_ascii_digit(content[index - 1]))
}

/// The first `count` characters with zero hours written out.
pub open spec fn midnight_text(content: Seq<char>, count: int) -> Seq<char>
    decreases count,
{
    if count <= 0 {
        Seq::empty()
    } else if short_midnight(content, count - 1) {
        midnight_text(content, count - 1).push('0').push('0')
    } else {
        midnight_text(content, count - 1).push(content[count - 1])
    }
}

/// Writes zero hours with two digits.
pub fn normalize_midnight_zero(content: &[char]) -> (result: Vec<char>)
    ensures
        result@ == midnight_text(content@, content@.len() as int),
{
    let mut result: Vec<char> = Vec::new();
    let count: usize = content.len();
    for index in 0..count
        invariant
            count == content@.len(),
            result@ == midnight_text(content@, index as int),
    {
        if content[index] == '0' && index + 1 < count && content[index + 1] == ':' && (index == 0
            || !is_ascii_digit(content[index - 1])) {
            result.push('0');
        }
        result.push(content[index]);
    }
    result
}

/// A label has the given category: two ASCII characters of which the second is the letter.
pub open spec fn of_category(label: Seq<char>, category: char) -> bool {
    label.len() == 2 && is_ascii(label[0]) && label[1] == category
}

/// Some label has the given category.
pub open spec fn has_category(labels: Seq<Seq<char>>, category: char) -> bool {
    exists|index: int| 0 <= index < labels.len() && of_category(#[trigger] labels[index], category)
}

/// No label marks a character that conversion leaves alone.
pub open spec fn all_converted(labels: Seq<Seq<char>>) -> bool {
    forall|index: int|
        0 <= index < labels.len() ==> (#[trigger] labels[index]) != "O"@ && labels[index] != "E"@
            && labels[index] != "<unk>"@
}

/// A character occurs in a text.
pub open spec fn holds(content: Seq<char>, character: char) -> bool {
    content.contains(character)
}

/// One or two digits, a point and at least one digit.
pub open spec fn short_decimal(value: Seq<char>) -> bool {
    let point = text::next_mark(value, '.', 0);
    1 <= point <= 2 && point + 1 < value.len() && text::all_ascii_digits(value.take(point))
        && text::all_ascii_digits(value.skip(point + 1))
}

/// Groups of digits with single spaces between them.
pub open spec fn split_number(value: Seq<char>) -> bool {
    &&& holds(value, ' ')
    &&& value[0] != ' '
    &&& value.last() != ' '
    &&& forall|index: int|
        0 <= index < value.len() ==> (#[trigger] value[index]) == ' ' || is_ascii_digit(
            value[index],
        )
    &&& forall|index: int|
        0 <= index < value.len() - 1 && value[index] == ' ' ==> #[trigger] value[index + 1] != ' '
}

/// Every character can stand in a spoken number, time or date.
pub open spec fn all_numeric_source(content: Seq<char>) -> bool {
    forall|index: int|
        0 <= index < content.len() ==> words::numeric_source(#[trigger] content[index])
}

/// Some character is a digit.
pub open spec fn any_digit(content: Seq<char>) -> bool {
    exists|index: int|
        0 <= index < content.len() && numeric::digit(#[trigger] content[index]) is Some
}

/// A spoken decimal number and nothing else.
pub open spec fn pure_decimal(raw: Seq<char>, labels: Seq<Seq<char>>) -> bool {
    holds(raw, '点') && !(raw.len() > 0 && raw[0] == '负') && !words::prefix_sign_in(raw)
        && has_category(labels, 'C') && !has_category(labels, 'D') && all_converted(labels)
}

/// The text is a bare number or time, which no final mark follows.
pub open spec fn suppresses_final_mark(
    raw: Seq<char>,
    rendered: Seq<char>,
    labels: Seq<Seq<char>>,
    token_count: nat,
) -> bool {
    ||| pure_decimal(raw, labels) && short_decimal(rendered)
    ||| 1 <= rendered.len() <= 2 && text::all_ascii_digits(rendered) && any_digit(raw) && !holds(
        raw,
        '洞',
    )
    ||| raw.len() > 0 && numeric::sequence_digits(raw) && !holds(raw, '洞')
    ||| split_number(rendered) && semantics::all_features(raw)
    ||| holds(rendered, ':') && (holds(raw, '点') || holds(raw, '时')) && !holds(raw, '分')
        && all_numeric_source(raw)
    ||| holds(raw, '点') && !holds(rendered, '.') && !holds(rendered, ':') && all_numeric_source(raw)
    ||| token_count == 0
}

fn has_char(content: &[char], character: char) -> (result: bool)
    ensures
        result == holds(content@, character),
{
    for index in 0..content.len()
        invariant
            forall|earlier: int| 0 <= earlier < index ==> content@[earlier] != character,
    {
        if content[index] == character {
            return true;
        }
    }
    false
}

fn includes_category(labels: &[String], category: char) -> (result: bool)
    ensures
        result == has_category(types::text_views(labels@), category),
{
    let ghost views = types::text_views(labels@);
    for index in 0..labels.len()
        invariant
            views == types::text_views(labels@),
            forall|earlier: int|
                0 <= earlier < index ==> !of_category(#[trigger] views[earlier], category),
    {
        let label: Vec<char> = chars_of(labels[index].as_str());
        assert(label@ == views[index as int]);
        if label.len() == 2 && is_ascii(label[0]) && label[1] == category {
            assert(of_category(views[index as int], category));
            return true;
        }
    }
    false
}

fn are_converted(labels: &[String]) -> (result: bool)
    ensures
        result == all_converted(types::text_views(labels@)),
{
    let ghost views = types::text_views(labels@);
    for index in 0..labels.len()
        invariant
            views == types::text_views(labels@),
            forall|earlier: int|
                0 <= earlier < index ==> (#[trigger] views[earlier]) != "O"@ && views[earlier]
                    != "E"@ && views[earlier] != "<unk>"@,
    {
        let label: &str = labels[index].as_str();
        assert(label@ == views[index as int]);
        if label.eq("O") || label.eq("E") || label.eq("<unk>") {
            return false;
        }
    }
    true
}

/// Decides whether a text is one or two digits, a point and at least one digit.
pub fn is_short_decimal(value: &[char]) -> (result: bool)
    ensures
        result == short_decimal(value@),
{
    let count: usize = value.len();
    let point: usize = find_mark(value, '.', 0);
    if point < 1 || point > 2 || point >= count || point + 1 >= count {
        return false;
    }
    let whole: Vec<char> = part(value, 0, point);
    let fraction: Vec<char> = part(value, point + 1, count);
    assert(whole@ =~= value@.take(point as int));
    assert(fraction@ =~= value@.skip(point + 1));
    are_ascii_digits(&whole) && are_ascii_digits(&fraction)
}

/// Decides whether a text is groups of digits with single spaces between them.
pub fn is_bare_split_number(value: &[char]) -> (result: bool)
    ensures
        result == split_number(value@),
{
    if !has_char(value, ' ') {
        return false;
    }
    let count: usize = value.len();
    if value[0] == ' ' || value[count - 1] == ' ' {
        return false;
    }
    for index in 0..count
        invariant
            count == value@.len(),
            count > 0,
            value@[0] != ' ',
            forall|earlier: int|
                0 <= earlier < index ==> (#[trigger] value@[earlier]) == ' ' || is_ascii_digit(
                    value@[earlier],
                ),
            forall|earlier: int|
                0 <= earlier < index - 1 && value@[earlier] == ' ' ==> #[trigger] value@[earlier
                    + 1] != ' ',
    {
        if value[index] == ' ' {
            if index > 0 && value[index - 1] == ' ' {
                assert(value@[(index - 1) + 1] == ' ');
                return false;
            }
        } else if !is_ascii_digit(value[index]) {
            assert(!is_ascii_digit(value@[index as int]));
            return false;
        }
    }
    true
}

fn are_numeric_source(content: &[char]) -> (result: bool)
    ensures
        result == all_numeric_source(content@),
{
    for index in 0..content.len()
        invariant
            forall|earlier: int|
                0 <= earlier < index ==> words::numeric_source(#[trigger] content@[earlier]),
    {
        if !numeric_source_character(content[index]) {
            assert(!words::numeric_source(content@[index as int]));
            return false;
        }
    }
    true
}

fn holds_digit(content: &[char]) -> (result: bool)
    ensures
        result == any_digit(content@),
{
    for index in 0..content.len()
        invariant
            forall|earlier: int|
                0 <= earlier < index ==> numeric::digit(#[trigger] content@[earlier]) is None,
    {
        if is_digit_character(content[index]) {
            assert(numeric::digit(content@[index as int]) is Some);
            return true;
        }
    }
    false
}

/// Decides whether no final mark follows a text.
pub fn should_suppress_final_punctuation(
    raw: &[char],
    rendered: &[char],
    labels: &[String],
    token_count: usize,
) -> (result: bool)
    ensures
        result == suppresses_final_mark(
            raw@,
            rendered@,
            types::text_views(labels@),
            token_count as nat,
        ),
{
    let spoken_point: bool = has_char(raw, '点');
    let pure: bool = spoken_point && !(raw.len() > 0 && raw[0] == '负') && !has_prefix_symbol(raw)
        && includes_category(labels, 'C') && !includes_category(labels, 'D') && are_converted(
        labels,
    );
    let hole: bool = has_char(raw, '洞');
    let short_integer: bool = rendered.len() >= 1 && rendered.len() <= 2 && are_ascii_digits(
        rendered,
    ) && holds_digit(raw) && !hole;
    let digit_sequence: bool = raw.len() > 0 && are_sequence_digits(raw) && !hole;
    let bare_split: bool = is_bare_split_number(rendered) && are_features(raw);
    let colon: bool = has_char(rendered, ':');
    let bare_time: bool = colon && (spoken_point || has_char(raw, '时')) && !has_char(raw, '分')
        && are_numeric_source(raw);
    let malformed: bool = spoken_point && !has_char(rendered, '.') && !colon && are_numeric_source(
        raw,
    );
    (pure && is_short_decimal(rendered)) || short_integer || digit_sequence || bare_split
        || bare_time || malformed || token_count == 0
}

/// The tokens that are not empty.
pub open spec fn nonempty_tokens(tokens: Seq<Seq<char>>) -> Seq<Seq<char>>
    decreases tokens.len(),
{
    if tokens.len() == 0 {
        Seq::empty()
    } else if tokens.last().len() == 0 {
        nonempty_tokens(tokens.drop_last())
    } else {
        nonempty_tokens(tokens.drop_last()).push(tokens.last())
    }
}

/// The label of one token at its last character, with zeros before it.
pub open spec fn token_spread(token: Seq<char>, label: usize) -> Seq<usize> {
    Seq::new(
        if token.len() <= 1 {
            1
        } else {
            token.len()
        },
        |index: int|
            if index + 1 < token.len() {
                0
            } else {
                label
            },
    )
}

/// The labels of tokens as labels of characters: a token's label stands at its last character.
pub open spec fn spread(tokens: Seq<Seq<char>>, labels: Seq<usize>, count: int) -> Seq<usize>
    decreases count,
{
    if count <= 0 {
        Seq::empty()
    } else {
        spread(tokens, labels, count - 1) + token_spread(tokens[count - 1], labels[count - 1])
    }
}

/// How many tokens have a label.
pub open spec fn labelled(tokens: Seq<Seq<char>>, labels: Seq<usize>) -> int {
    if tokens.len() <= labels.len() {
        tokens.len() as int
    } else {
        labels.len() as int
    }
}

/// The labels of characters after the protected phrases were marked.
pub open spec fn protected_labels(
    content: Seq<char>,
    phrases: Seq<Seq<char>>,
    labels: Seq<Seq<char>>,
) -> Seq<Seq<char>> {
    Seq::new(
        labels.len(),
        |index: int|
            if tables::protected(content, phrases, labels.len() as int, index) {
                "O"@
            } else {
                labels[index]
            },
    )
}

/// The labels that conversion goes by: ASCII characters are left alone.
pub open spec fn semantic_labels(content: Seq<char>, labels: Seq<Seq<char>>) -> Seq<Seq<char>> {
    Seq::new(
        if content.len() <= labels.len() {
            content.len()
        } else {
            labels.len()
        },
        |index: int|
            if is_ascii(content[index]) {
                "O"@
            } else {
                labels[index]
            },
    )
}

/// Words with zero hours written out.
pub open spec fn midnight_words(words: Seq<Rendered>) -> Seq<Rendered> {
    Seq::new(
        words.len(),
        |index: int|
            Rendered {
                text: midnight_text(words[index].text, words[index].text.len() as int),
                ..words[index]
            },
    )
}

/// Words whose first one begins with a space.
pub open spec fn led_by_space(words: Seq<Rendered>) -> Seq<Rendered> {
    if words.len() > 0 && !(words[0].text.len() > 0 && words[0].text[0] == ' ') {
        words.update(0, Rendered { text: seq![' '] + words[0].text, ..words[0] })
    } else {
        words
    }
}

/// Some character is Chinese text.
pub open spec fn any_cjk(content: Seq<char>) -> bool {
    exists|index: int| 0 <= index < content.len() && is_cjk(#[trigger] content[index])
}

/// Some character is an ASCII letter.
pub open spec fn any_letter(content: Seq<char>) -> bool {
    exists|index: int| 0 <= index < content.len() && is_ascii_alphabetic(#[trigger] content[index])
}

/// Some character is Chinese text that is no part of a number.
pub open spec fn any_plain_cjk(content: Seq<char>) -> bool {
    exists|index: int|
        0 <= index < content.len() && is_cjk(#[trigger] content[index]) && !words::numeric_source(
            content[index],
        )
}

/// Marks are written in Chinese form.
pub open spec fn chinese_marks(raw: Seq<Seq<char>>, rendered: Seq<char>) -> bool {
    any_cjk(rendered) || (raw.len() > 0 && any_plain_cjk(raw.last())) || holds(rendered, '‰')
        || holds(rendered, '÷') || holds(rendered, '℃') || holds(rendered, '℉')
}

/// What a postprocessor works with.
pub struct Rules {
    pub pairs: Seq<(Seq<char>, Seq<char>)>,
    pub phrases: Seq<Seq<char>>,
    pub english_punctuation: bool,
}

/// The words before replacement.
pub open spec fn converted_words(
    raw: Seq<Seq<char>>,
    labels: Seq<Seq<char>>,
) -> Seq<Rendered> {
    let content = types::concat(raw);
    words::merged_words(
        semantics::semantics(pieces::converted(content, semantic_labels(content, labels))),
        words::token_boundary_set(raw, raw.len() as int),
    )
}

/// The words after replacement, spacing and grammar.
pub open spec fn formed_words(
    raw: Seq<Seq<char>>,
    replaced: Seq<Rendered>,
    marks: Seq<usize>,
) -> Seq<Rendered> {
    let content = types::concat(raw);
    let coalesced = words::coalesced(
        replaced,
        words::token_boundary_set(raw, raw.len() as int),
        replaced.len() as int,
    );
    let timed = if text::contains_text(content, "零点"@) {
        midnight_words(coalesced)
    } else {
        coalesced
    };
    let formatted = english::formatted(timed, timed.len() as int);
    let led = if content.len() > 0 && is_ascii_alphabetic(content[0]) {
        led_by_space(formatted)
    } else {
        formatted
    };
    let read = english::address_words(raw, english::grammar_words(raw, led, marks));
    words::per_mille_joined(read, read.len() as int)
}

/// The labels of characters for marks, with the last one as the whole text asks.
pub open spec fn final_marks(
    raw: Seq<Seq<char>>,
    rendered: Seq<char>,
    labels: Seq<Seq<char>>,
    marks: Seq<usize>,
    final_input: bool,
) -> Seq<usize> {
    let content = types::concat(raw);
    if marks.len() == 0 {
        marks
    } else if suppresses_final_mark(content, rendered, labels, raw.len()) {
        marks.update(marks.len() - 1, 0)
    } else if final_input && any_letter(content) && !any_cjk(content) {
        marks.update(marks.len() - 1, 2)
    } else {
        marks
    }
}

/// The finished words of formed ones.
pub open spec fn finished_words(
    raw: Seq<Seq<char>>,
    formed: Seq<Rendered>,
    labels: Seq<Seq<char>>,
    marks: Seq<usize>,
    final_input: bool,
    english_punctuation: bool,
) -> Seq<Word> {
    let rendered = types::joined(formed);
    let punctuated = punctuation::punctuated(
        formed,
        Marks {
            labels: final_marks(raw, rendered, labels, marks, final_input),
            boundaries: words::token_boundary_set(raw, raw.len() as int),
            chinese: chinese_marks(raw, rendered),
            final_input,
            source_length: types::concat(raw).len(),
        },
        formed.len() as int,
    );
    Seq::new(
        punctuated.len(),
        |index: int|
            Word {
                text: written(punctuated[index].text, english_punctuation),
                kind: punctuated[index].kind,
            },
    )
}

/// The text and tokens of finished words.
pub open spec fn finished(words: Seq<Word>, english_punctuation: bool) -> Finished {
    Finished {
        text: written(types::joined_words(words), english_punctuation),
        tokens: Seq::new(words.len(), |index: int| words[index].text),
    }
}

/// The finished text of recognised tokens, given the labels of their characters and of the tokens.
pub open spec fn processed(
    rules: Rules,
    tokens: Seq<Seq<char>>,
    numeric_labels: Seq<Seq<char>>,
    token_labels: Seq<usize>,
    final_input: bool,
) -> Result<Finished, ReplacementError> {
    let raw = nonempty_tokens(tokens);
    let content = types::concat(raw);
    if content.len() == 0 {
        Ok(Finished { text: Seq::empty(), tokens: Seq::empty() })
    } else {
        let labels = protected_labels(content, rules.phrases, numeric_labels);
        let marks = spread(raw, token_labels, labelled(raw, token_labels));
        match tables::replaced(converted_words(raw, labels), rules.pairs) {
            Err(error) => Err(error),
            Ok(replaced) => Ok(
                finished(
                    finished_words(
                        raw,
                        formed_words(raw, replaced, marks),
                        labels,
                        marks,
                        final_input,
                        rules.english_punctuation,
                    ),
                    rules.english_punctuation,
                ),
            ),
        }
    }
}

/// Keeps the tokens that are not empty.
pub fn keep_nonempty(tokens: &[String]) -> (raw: Vec<String>)
    ensures
        types::text_views(raw@) == nonempty_tokens(types::text_views(tokens@)),
{
    let ghost views = types::text_views(tokens@);
    let mut raw: Vec<String> = Vec::new();
    assert(types::text_views(raw@) =~= Seq::empty());
    for index in 0..tokens.len()
        invariant
            views == types::text_views(tokens@),
            types::text_views(raw@) == nonempty_tokens(views.take(index as int)),
    {
        let ghost before = types::text_views(raw@);
        assert(views.take(index + 1).drop_last() =~= views.take(index as int));
        if !tokens[index].as_str().is_empty() {
            raw.push(tokens[index].clone());
            assert(types::text_views(raw@) =~= before.push(tokens@[index as int]@));
        }
    }
    assert(views.take(views.len() as int) =~= views);
    raw
}

proof fn lemma_nonempty_tokens(tokens: Seq<Seq<char>>)
    ensures
        forall|index: int|
            0 <= index < nonempty_tokens(tokens).len() ==> (#[trigger] nonempty_tokens(
                tokens,
            )[index]).len() > 0,
    decreases tokens.len(),
{
    if tokens.len() > 0 {
        lemma_nonempty_tokens(tokens.drop_last());
        let before = nonempty_tokens(tokens.drop_last());
        assert forall|index: int| 0 <= index < nonempty_tokens(tokens).len() implies (
        #[trigger] nonempty_tokens(tokens)[index]).len() > 0 by {
            if index < before.len() {
                assert(nonempty_tokens(tokens)[index] == before[index]);
            }
        }
    }
}

/// Spreads the labels of tokens over their characters.
pub fn spread_labels(tokens: &[String], labels: &[usize]) -> (result: Vec<usize>)
    ensures
        result@ == spread(
            types::text_views(tokens@),
            labels@,
            labelled(types::text_views(tokens@), labels@),
        ),
{
    let ghost views = types::text_views(tokens@);
    let mut result: Vec<usize> = Vec::new();
    let count: usize = if tokens.len() <= labels.len() {
        tokens.len()
    } else {
        labels.len()
    };
    for index in 0..count
        invariant
            views == types::text_views(tokens@),
            count == labelled(views, labels@),
            result@ == spread(views, labels@, index as int),
    {
        let length: usize = char_count(tokens[index].as_str());
        let ghost before = result@;
        let zeros: usize = if length > 1 {
            length - 1
        } else {
            0
        };
        for position in 0..zeros
            invariant
                length == views[index as int].len(),
                zeros == (if length > 1 { length - 1 } else { 0int }),
                result@ == before + token_spread(views[index as int], labels@[index as int]).take(
                    position as int,
                ),
        {
            result.push(0);
            assert(result@ =~= before + token_spread(
                views[index as int],
                labels@[index as int],
            ).take(position + 1));
        }
        result.push(labels[index]);
        assert(result@ =~= before + token_spread(views[index as int], labels@[index as int]));
    }
    result
}

/// The labels that conversion goes by.
fn select_labels(content: &[char], labels: &[String]) -> (result: Vec<String>)
    ensures
        types::text_views(result@) == semantic_labels(content@, types::text_views(labels@)),
{
    let ghost views = types::text_views(labels@);
    let mut result: Vec<String> = Vec::new();
    let count: usize = if content.len() <= labels.len() {
        content.len()
    } else {
        labels.len()
    };
    for index in 0..count
        invariant
            views == types::text_views(labels@),
            count == semantic_labels(content@, views).len(),
            count <= content@.len(),
            count <= labels@.len(),
            result@.len() == index,
            forall|earlier: int|
                0 <= earlier < index ==> (#[trigger] result@[earlier])@ == semantic_labels(
                    content@,
                    views,
                )[earlier],
    {
        if is_ascii(content[index]) {
            let label: String = "O".to_owned();
            result.push(label);
        } else {
            result.push(labels[index].clone());
        }
    }
    assert(types::text_views(result@) =~= semantic_labels(content@, views));
    result
}

/// Writes zero hours in words with two digits.
fn write_midnights(words: &[RenderedWord]) -> (output: Vec<RenderedWord>)
    ensures
        types::rendered_views(output@) == midnight_words(types::rendered_views(words@)),
{
    let ghost views = types::rendered_views(words@);
    let mut output: Vec<RenderedWord> = Vec::new();
    for index in 0..words.len()
        invariant
            views == types::rendered_views(words@),
            output@.len() == index,
            forall|earlier: int|
                0 <= earlier < index ==> (#[trigger] output@[earlier])@ == midnight_words(
                    views,
                )[earlier],
    {
        let content: Vec<char> = chars_of(words[index].word.text.as_str());
        output.push(
            RenderedWord::from_chars(
                &normalize_midnight_zero(&content),
                words[index].word.kind,
                words[index].source_end,
            ),
        );
    }
    assert(types::rendered_views(output@) =~= midnight_words(views));
    output
}

/// Puts a space in front of the first word.
fn lead_by_space(words: &mut Vec<RenderedWord>)
    ensures
        types::rendered_views(final(words)@) == led_by_space(types::rendered_views(old(words)@)),
{
    let ghost before = types::rendered_views(words@);
    if words.len() > 0 {
        let content: Vec<char> = chars_of(words[0].word.text.as_str());
        assert(content@ == before[0].text);
        if content.len() == 0 || content[0] != ' ' {
            let led = RenderedWord::from_chars(
                &prepend(' ', &content),
                words[0].word.kind,
                words[0].source_end,
            );
            words.set(0, led);
        }
    }
    assert(types::rendered_views(words@) =~= led_by_space(before));
}

fn holds_cjk(content: &[char]) -> (result: bool)
    ensures
        result == any_cjk(content@),
{
    for index in 0..content.len()
        invariant
            forall|earlier: int| 0 <= earlier < index ==> !is_cjk(#[trigger] content@[earlier]),
    {
        if is_cjk(content[index]) {
            assert(is_cjk(content@[index as int]));
            return true;
        }
    }
    false
}

fn holds_letter(content: &[char]) -> (result: bool)
    ensures
        result == any_letter(content@),
{
    for index in 0..content.len()
        invariant
            forall|earlier: int|
                0 <= earlier < index ==> !is_ascii_alphabetic(#[trigger] content@[earlier]),
    {
        if is_ascii_alphabetic(content[index]) {
            assert(is_ascii_alphabetic(content@[index as int]));
            return true;
        }
    }
    false
}

fn holds_plain_cjk(content: &[char]) -> (result: bool)
    ensures
        result == any_plain_cjk(content@),
{
    for index in 0..content.len()
        invariant
            forall|earlier: int|
                0 <= earlier < index ==> !(is_cjk(#[trigger] content@[earlier])
                    && !words::numeric_source(content@[earlier])),
    {
        if is_cjk(content[index]) && !numeric_source_character(content[index]) {
            assert(is_cjk(content@[index as int]));
            return true;
        }
    }
    false
}

/// Decides whether marks are written in Chinese form.
fn uses_chinese_marks(raw: &[String], rendered: &[char]) -> (result: bool)
    ensures
        result == chinese_marks(types::text_views(raw@), rendered@),
{
    let source_text: bool = if raw.len() > 0 {
        assert(types::text_views(raw@).last() == raw@.last()@);
        holds_plain_cjk(&chars_of(raw[raw.len() - 1].as_str()))
    } else {
        false
    };
    holds_cjk(rendered) || source_text || has_char(rendered, '‰') || has_char(rendered, '÷')
        || has_char(rendered, '℃') || has_char(rendered, '℉')
}

/// Sets the last label as the whole text asks.
fn set_final_mark(
    raw: &[String],
    content: &[char],
    rendered: &[char],
    labels: &[String],
    marks: &mut Vec<usize>,
    final_input: bool,
)
    requires
        content@ == types::concat(types::text_views(raw@)),
    ensures
        final(marks)@ == final_marks(
            types::text_views(raw@),
            rendered@,
            types::text_views(labels@),
            old(marks)@,
            final_input,
        ),
{
    let count: usize = marks.len();
    if count == 0 {
        return;
    }
    if should_suppress_final_punctuation(content, rendered, labels, raw.len()) {
        marks.set(count - 1, 0);
    } else if final_input && holds_letter(content) && !holds_cjk(content) {
        marks.set(count - 1, 2);
    }
}

/// Writes words as the options ask.
fn apply_word_options(words: &[ProcessedWord], options: &PostprocessOptions) -> (output: Vec<
    ProcessedWord,
>)
    ensures
        output@.len() == words@.len(),
        forall|index: int|
            0 <= index < words@.len() ==> (#[trigger] output@[index])@ == (Word {
                text: written(words@[index].text@, options.english_punctuation),
                kind: words@[index].kind,
            }),
{
    let mut output: Vec<ProcessedWord> = Vec::new();
    for index in 0..words.len()
        invariant
            output@.len() == index,
            forall|earlier: int|
                0 <= earlier < index ==> (#[trigger] output@[earlier])@ == (Word {
                    text: written(words@[earlier].text@, options.english_punctuation),
                    kind: words@[earlier].kind,
                }),
    {
        let content: Vec<char> = apply_output_options(
            chars_of(words[index].text.as_str()),
            options,
        );
        output.push(ProcessedWord { text: string_of(&content), kind: words[index].kind });
    }
    output
}

/// Collects the text and tokens of finished words.
fn finish(words: Vec<ProcessedWord>, options: &PostprocessOptions) -> (result: PostprocessResult)
    ensures
        result@ == finished(types::word_views(words@), options.english_punctuation),
{
    let content: Vec<char> = apply_output_options(joined_processed_text(&words), options);
    let mut tokens: Vec<String> = Vec::new();
    for index in 0..words.len()
        invariant
            tokens@.len() == index,
            forall|earlier: int|
                0 <= earlier < index ==> (#[trigger] tokens@[earlier])@ == words@[earlier].text@,
    {
        tokens.push(words[index].text.clone());
    }
    let result = PostprocessResult { text: string_of(&content), tokens };
    assert(result@.tokens =~= finished(
        types::word_views(words@),
        options.english_punctuation,
    ).tokens);
    result
}

/// Postprocessing by labels: number conversion, replacement, English grammar and punctuation.
#[derive(Debug)]
pub struct EdgeEsrPostprocessor {
    replacements: ReplacementTable,
    not_change: NumericNotChangeList,
    options: PostprocessOptions,
}

impl EdgeEsrPostprocessor {
    pub closed spec fn rules(self) -> Rules {
        Rules {
            pairs: self.replacements.pairs(),
            phrases: self.not_change.phrases(),
            english_punctuation: self.options.english_punctuation,
        }
    }

    /// The list of protected phrases is valid.
    pub closed spec fn valid(self) -> bool {
        self.not_change.valid()
    }

    pub fn new(
        replacements: ReplacementTable,
        not_change: NumericNotChangeList,
        options: PostprocessOptions,
    ) -> (postprocessor: Self)
        requires
            not_change.valid(),
        ensures
            postprocessor.valid(),
            postprocessor.rules() == (Rules {
                pairs: replacements.pairs(),
                phrases: not_change.phrases(),
                english_punctuation: options.english_punctuation,
            }),
    {
        EdgeEsrPostprocessor { replacements, not_change, options }
    }

    /// The words before replacement.
    fn convert(raw: &[String], content: &[char], labels: &[String], boundaries: &HashSet<usize>)
        -> (words: Vec<RenderedWord>)
        requires
            content@ == types::concat(types::text_views(raw@)),
            boundaries@ == words::token_boundary_set(types::text_views(raw@), raw@.len() as int),
        ensures
            types::rendered_views(words@) == converted_words(
                types::text_views(raw@),
                types::text_views(labels@),
            ),
    {
        let selected: Vec<String> = select_labels(content, labels);
        let count: usize = content.len();
        proof {
            pieces::lemma_spans_inside(content@, types::text_views(selected@), 0);
        }
        let items: Vec<NumericPiece> = convert_numeric(content, &selected);
        let signed: Vec<NumericPiece> = apply_semantics(&items);
        proof {
            let views = pieces::piece_views(items@);
            pieces::law_conversion_keeps_the_source(content@, types::text_views(selected@), 0);
            assert(content@.skip(0) =~= content@);
            semantics::law_semantics_keep_the_source(views, 0, Seq::empty());
            assert(views.skip(0) =~= views);
            assert(pieces::sources(Seq::empty()).len() == 0);
            assert(pieces::sources(pieces::piece_views(signed@)).len() == count);
        }
        merge_text_pieces(&signed, boundaries)
    }

    /// The words after replacement, spacing and grammar.
    fn form(
        raw: &[String],
        content: &[char],
        replaced: &[RenderedWord],
        marks: &[usize],
        boundaries: &HashSet<usize>,
    ) -> (formed: Vec<RenderedWord>)
        requires
            content@ == types::concat(types::text_views(raw@)),
            boundaries@ == words::token_boundary_set(types::text_views(raw@), raw@.len() as int),
        ensures
            types::rendered_views(formed@) == formed_words(
                types::text_views(raw@),
                types::rendered_views(replaced@),
                marks@,
            ),
    {
        let count: usize = content.len();
        let coalesced: Vec<RenderedWord> = coalesce_within_tokens(replaced, boundaries);
        let timed: Vec<RenderedWord> = if includes(content, "零点") {
            write_midnights(&coalesced)
        } else {
            coalesced
        };
        let mut formatted: Vec<RenderedWord> = format_english_words(&timed);
        if count > 0 && is_ascii_alphabetic(content[0]) {
            lead_by_space(&mut formatted);
        }
        let read: Vec<RenderedWord> = apply_english_grammar(raw, &formatted, marks);
        let addressed: Vec<RenderedWord> = apply_spoken_web_semantics(raw, &read);
        coalesce_per_mille(&addressed)
    }

    /// Turns recognised tokens into finished text. `numeric_labels` holds the conversion label of
    /// each character and `token_labels` the punctuation label of each token that is not empty.
    pub fn process(
        &self,
        tokens: &[String],
        numeric_labels: Vec<String>,
        token_labels: &[usize],
        final_input: bool,
    ) -> (result: Result<PostprocessResult, ReplacementError>)
        requires
            self.valid(),
        ensures
            match result {
                Ok(finished) => processed(
                    self.rules(),
                    types::text_views(tokens@),
                    types::text_views(numeric_labels@),
                    token_labels@,
                    final_input,
                ) == Ok::<Finished, ReplacementError>(finished@),
                Err(error) => processed(
                    self.rules(),
                    types::text_views(tokens@),
                    types::text_views(numeric_labels@),
                    token_labels@,
                    final_input,
                ) == Err::<Finished, ReplacementError>(error),
            },
    {
        let raw: Vec<String> = keep_nonempty(tokens);
        let content: Vec<char> = concat_chars(&raw);
        let count: usize = content.len();
        if count == 0 {
            return Ok(PostprocessResult::default());
        }
        proof {
            lemma_nonempty_tokens(types::text_views(tokens@));
            if raw@.len() > 0 {
                assert(types::text_views(raw@)[0].len() > 0);
            }
        }
        let boundaries: HashSet<usize> = token_boundaries(&raw);
        let ghost numeric_views = types::text_views(numeric_labels@);
        let mut labels: Vec<String> = numeric_labels;
        self.not_change.protect(&content, &mut labels);
        assert(types::text_views(labels@) =~= protected_labels(
            content@,
            self.not_change.phrases(),
            numeric_views,
        ));
        let mut marks: Vec<usize> = spread_labels(&raw, token_labels);
        let ghost spread_marks = marks@;
        let converted: Vec<RenderedWord> = Self::convert(&raw, &content, &labels, &boundaries);
        let replaced: Vec<RenderedWord> = match self.replacements.apply_words(&converted) {
            Ok(replaced) => replaced,
            Err(error) => {
                return Err(error);
            },
        };
        let formed: Vec<RenderedWord> = Self::form(&raw, &content, &replaced, &marks, &boundaries);
        let rendered: Vec<char> = joined_text(&formed);
        let chinese: bool = uses_chinese_marks(&raw, &rendered);
        set_final_mark(&raw, &content, &rendered, &labels, &mut marks, final_input);
        let punctuated: Vec<ProcessedWord> = punctuate(
            &formed,
            &marks,
            &boundaries,
            chinese,
            final_input,
            count,
        );
        let words: Vec<ProcessedWord> = apply_word_options(&punctuated, &self.options);
        assert(types::word_views(words@) =~= finished_words(
            types::text_views(raw@),
            types::rendered_views(formed@),
            types::text_views(labels@),
            spread_marks,
            final_input,
            self.options.english_punctuation,
        ));
        Ok(finish(words, &self.options))
    }
}

/// Leaving out empty tokens keeps the text, and leaves no token without text.
pub proof fn law_dropping_empty_tokens_keeps_the_text(tokens: Seq<Seq<char>>)
    ensures
        types::concat(nonempty_tokens(tokens)) == types::concat(tokens),
        forall|index: int|
            0 <= index < nonempty_tokens(tokens).len() ==> (#[trigger] nonempty_tokens(
                tokens,
            )[index]).len() > 0,
        nonempty_tokens(tokens).len() <= tokens.len(),
    decreases tokens.len(),
{
    lemma_nonempty_tokens(tokens);
    if tokens.len() > 0 {
        let shorter = tokens.drop_last();
        law_dropping_empty_tokens_keeps_the_text(shorter);
        let before = nonempty_tokens(shorter);
        if tokens.last().len() > 0 {
            assert(before.push(tokens.last()).drop_last() =~= before);
        } else {
            assert(types::concat(shorter) + tokens.last() =~= types::concat(shorter));
        }
    }
}

/// The label of each token stands at its last character, and no other character has one.
pub proof fn law_labels_stand_at_last_characters(
    tokens: Seq<Seq<char>>,
    labels: Seq<usize>,
    count: int,
)
    requires
        0 <= count <= tokens.len(),
        count <= labels.len(),
        forall|index: int| 0 <= index < tokens.len() ==> (#[trigger] tokens[index]).len() > 0,
    ensures
        spread(tokens, labels, count).len() == words::token_end(tokens, count),
        forall|index: int, position: int|
            0 <= index < count && words::token_end(tokens, index) <= position
                < #[trigger] words::token_end(tokens, index + 1) ==> (#[trigger] spread(
                tokens,
                labels,
                count,
            )[position]) == if position == words::token_end(tokens, index + 1) - 1 {
                labels[index]
            } else {
                0
            },
    decreases count,
{
    if count > 0 {
        law_labels_stand_at_last_characters(tokens, labels, count - 1);
        words::lemma_token_end_step(tokens, count - 1);
        let before = spread(tokens, labels, count - 1);
        let after = spread(tokens, labels, count);
        let own = token_spread(tokens[count - 1], labels[count - 1]);
        assert forall|index: int, position: int|
            0 <= index < count && words::token_end(tokens, index) <= position
                < #[trigger] words::token_end(tokens, index + 1) implies (
        #[trigger] after[position]) == if position == words::token_end(tokens, index + 1) - 1 {
            labels[index]
        } else {
            0
        } by {
            if index < count - 1 {
                words::lemma_token_end_grows(tokens, index + 1, count - 1);
                assert(after[position] == before[position]);
            } else {
                assert(after[position] == own[position - before.len()]);
            }
        }
    } else {
        assert(tokens.take(0) =~= Seq::empty());
    }
}

/// A text without its zeros.
pub open spec fn without_zeros(content: Seq<char>) -> Seq<char>
    decreases content.len(),
{
    if content.len() == 0 {
        content
    } else if content.last() == '0' {
        without_zeros(content.drop_last())
    } else {
        without_zeros(content.drop_last()).push(content.last())
    }
}

proof fn lemma_without_zeros_push(content: Seq<char>, last: char)
    ensures
        without_zeros(content.push(last)) == if last == '0' {
            without_zeros(content)
        } else {
            without_zeros(content).push(last)
        },
{
    assert(content.push(last).drop_last() =~= content);
}

proof fn lemma_midnight_text(content: Seq<char>, count: int)
    requires
        0 <= count <= content.len(),
    ensures
        ({
            let result = midnight_text(content, count);
            &&& count > 0 ==> result.len() > 0 && result.last() == content[count - 1]
            &&& count > 1 && !short_midnight(content, count - 1) ==> result.len() > 1
                && result[result.len() - 2] == content[count - 2]
            &&& count == 1 && !short_midnight(content, 0) ==> result.len() == 1
            &&& count > 0 && short_midnight(content, count - 1) ==> result.len() > 1
                && result[result.len() - 2] == '0'
            &&& forall|index: int| 0 <= index < result.len() ==> !short_midnight(result, index)
            &&& without_zeros(result) == without_zeros(content.take(count))
            &&& result.len() >= count
            &&& (forall|index: int| 0 <= index < count ==> !short_midnight(content, index))
                ==> result == content.take(count)
        }),
    decreases count,
{
    if count > 0 {
        lemma_midnight_text(content, count - 1);
        let before = midnight_text(content, count - 1);
        let result = midnight_text(content, count);
        let last = content[count - 1];
        assert(content.take(count) =~= content.take(count - 1).push(last));
        lemma_without_zeros_push(content.take(count - 1), last);
        if short_midnight(content, count - 1) {
            lemma_without_zeros_push(before, '0');
            lemma_without_zeros_push(before.push('0'), '0');
        } else {
            lemma_without_zeros_push(before, last);
        }
        assert forall|index: int| 0 <= index < result.len() implies !short_midnight(
            result,
            index,
        ) by {
            if index < before.len() - 1 {
                assert(result[index] == before[index]);
                assert(result[index + 1] == before[index + 1]);
                if index > 0 {
                    assert(result[index - 1] == before[index - 1]);
                }
                assert(!short_midnight(before, index));
            } else if index == before.len() - 1 {
                assert(result[index] == before.last());
                if before.last() == '0' && result[index + 1] == ':' {
                    assert(last == ':');
                    assert(content[count - 2] == '0');
                    if short_midnight(content, count - 2) {
                        assert(result[index - 1] == '0');
                    } else {
                        assert(result[index - 1] == content[count - 3]);
                    }
                }
            }
        }
    } else {
        assert(content.take(0) =~= Seq::empty());
    }
}

/// Every hour of a single zero gets a second one, and nothing else changes: in the result no such hour
/// is left, without its zeros the text is as it was, and a text without such an hour stays.
pub proof fn law_midnight_has_two_digits(content: Seq<char>)
    ensures
        ({
            let result = midnight_text(content, content.len() as int);
            &&& forall|index: int| 0 <= index < result.len() ==> !short_midnight(result, index)
            &&& without_zeros(result) == without_zeros(content)
            &&& result.len() >= content.len()
            &&& (forall|index: int| 0 <= index < content.len() ==> !short_midnight(content, index))
                ==> result == content
        }),
{
    lemma_midnight_text(content, content.len() as int);
    assert(content.take(content.len() as int) =~= content);
}

/// The two forms of a mark are one mark: the full-width form is one character, whose ASCII mark
/// begins the English form, and different labels have different marks.
pub proof fn law_marks_have_two_forms(label: int, other: int)
    requires
        1 <= label <= 4,
        1 <= other <= 4,
    ensures
        punctuation::mark_text(label, true).len() == 1,
        !is_ascii(punctuation::mark_text(label, true)[0]),
        punctuation::mark_text(label, false).len() > 0,
        ascii_mark(punctuation::mark_text(label, true)[0]) == punctuation::mark_text(
            label,
            false,
        )[0],
        punctuation::mark_text(label, true) == punctuation::mark_text(other, true) ==> label
            == other,
        punctuation::mark_text(label, false)[0] == punctuation::mark_text(other, false)[0]
            ==> label == other,
        punctuation::mark_text(2, false)[0] == '.',
        punctuation::mark_text(1, false)[0] == ',',
        punctuation::mark_text(4, false)[0] == '?',
{
    reveal_strlit("\u{ff0c}");
    reveal_strlit("\u{3002}");
    reveal_strlit("\u{ff01}");
    reveal_strlit("\u{ff1f}");
    reveal_strlit(", ");
    reveal_strlit(".");
    reveal_strlit("!");
    reveal_strlit("?");
    assert("\u{ff0c}"@[0] == '\u{ff0c}');
    assert("\u{3002}"@[0] == '\u{3002}');
    assert("\u{ff01}"@[0] == '\u{ff01}');
    assert("\u{ff1f}"@[0] == '\u{ff1f}');
}

/// Final English text, but for bare numbers and times, ends in a full stop where marks are written in
/// ASCII, whatever mark the model put behind its last token.
pub proof fn law_final_english_text_ends_in_a_full_stop(
    raw: Seq<Seq<char>>,
    formed: Seq<Rendered>,
    labels: Seq<Seq<char>>,
    marks: Seq<usize>,
    english_punctuation: bool,
)
    requires
        formed.len() > 0,
        raw.len() > 0,
        raw.last().len() > 0,
        types::concat(raw).len() <= usize::MAX,
        formed.last().kind != types::WordKind::Punctuation,
        formed.last().source_end == types::concat(raw).len(),
        marks.len() == types::concat(raw).len(),
        any_letter(types::concat(raw)),
        !any_cjk(types::concat(raw)),
        !suppresses_final_mark(types::concat(raw), types::joined(formed), labels, raw.len()),
        !chinese_marks(raw, types::joined(formed)) || english_punctuation,
    ensures
        ({
            let output = finished_words(raw, formed, labels, marks, true, english_punctuation);
            &&& output.len() > 0
            &&& output.last().kind == types::WordKind::Punctuation
            &&& output.last().text == seq!['.']
        }),
{
    let content = types::concat(raw);
    let rendered = types::joined(formed);
    let count = formed.len() as int;
    let settled = Marks {
        labels: final_marks(raw, rendered, labels, marks, true),
        boundaries: words::token_boundary_set(raw, raw.len() as int),
        chinese: chinese_marks(raw, rendered),
        final_input: true,
        source_length: content.len(),
    };
    assert(raw.take(raw.len() as int) =~= raw);
    assert(content.len() > 0) by {
        assert(types::concat(raw) == types::concat(raw.drop_last()) + raw.last());
    }
    assert(words::token_end(raw, raw.len() - 1 + 1) - 1 == content.len() - 1);
    assert(words::boundary(settled.boundaries, content.len() - 1));
    assert(punctuation::label_at(settled.labels, content.len() - 1) == 2);
    assert(punctuation::mark_follows(formed, settled, count - 1));
    law_marks_have_two_forms(2, 2);
    reveal_strlit("\u{3002}");
    reveal_strlit(".");
    assert("."@ =~= seq!['.']);
    let full = punctuation::punctuated(formed, settled, count);
    let mark = punctuation::mark_text(2, settled.chinese);
    assert(full.last().text == mark);
    assert(written(mark, english_punctuation) =~= seq!['.']);
}

/// Text that goes on has no mark at its end yet: no word that ends with the source gets one.
pub proof fn law_unfinished_text_has_no_final_mark(
    words: Seq<Rendered>,
    marks: Marks,
    index: int,
)
    requires
        0 <= index < words.len(),
        !marks.final_input,
        words[index].source_end == marks.source_length,
    ensures
        punctuation::mark_after(words, marks, index).len() == 0,
{
}

/// Text that is nothing but digits has no final mark, whatever the model put there: its last word
/// stays the last one.
pub proof fn law_bare_digits_have_no_final_mark(
    raw: Seq<Seq<char>>,
    formed: Seq<Rendered>,
    labels: Seq<Seq<char>>,
    marks: Seq<usize>,
    final_input: bool,
    english_punctuation: bool,
)
    requires
        formed.len() > 0,
        types::concat(raw).len() > 0,
        numeric::sequence_digits(types::concat(raw)),
        !holds(types::concat(raw), '洞'),
        formed.last().source_end == types::concat(raw).len(),
        marks.len() == types::concat(raw).len(),
    ensures
        ({
            let output = finished_words(
                raw,
                formed,
                labels,
                marks,
                final_input,
                english_punctuation,
            );
            &&& output.len() > 0
            &&& output.last().kind == formed.last().kind
            &&& output.last().text == written(formed.last().text, english_punctuation)
        }),
{
    let content = types::concat(raw);
    let rendered = types::joined(formed);
    let settled = Marks {
        labels: final_marks(raw, rendered, labels, marks, final_input),
        boundaries: words::token_boundary_set(raw, raw.len() as int),
        chinese: chinese_marks(raw, rendered),
        final_input,
        source_length: content.len(),
    };
    let count = formed.len() as int;
    assert(suppresses_final_mark(content, rendered, labels, raw.len()));
    assert(punctuation::label_at(settled.labels, content.len() - 1) == 0);
    assert(!punctuation::mark_follows(formed, settled, count - 1));
    let full = punctuation::punctuated(formed, settled, count);
    assert(punctuation::mark_after(formed, settled, count - 1) =~= Seq::empty());
    assert(full.len() > 0);
    assert(full.last() == (types::Word { text: formed.last().text, kind: formed.last().kind }));
}

}
