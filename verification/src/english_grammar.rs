//! Spoken English numbers, dates and times.

use vstd::prelude::*;

use crate::english_numbers;
use crate::english_numbers::{
    cardinal_between, english_digit, fraction_denominator, is_english_month, is_ordinal_word,
    ordinal_between, ordinal_suffix, year_between,
};
use crate::numeric;
use crate::text;
use crate::text::{
    are_ascii_letters, char_count, chars_of, decimal_text, is_ascii_uppercase, prepend, push_chars,
    push_text, to_ascii_lowercase, to_ascii_uppercase, two_digit_text,
};
use crate::types;
use crate::types::{copy_words, Rendered, RenderedWord, WordKind};
use crate::words;

verus! {

/// A text in lower case.
pub open spec fn lower_text(content: Seq<char>) -> Seq<char> {
    Seq::new(content.len(), |index: int| text::lower(content[index]))
}

/// A text with its first character in upper case.
pub open spec fn capitalized(content: Seq<char>) -> Seq<char> {
    if content.len() == 0 {
        content
    } else {
        seq![text::upper(content[0])] + content.skip(1)
    }
}

pub fn to_lower(content: &str) -> (result: String)
    ensures
        result@ == lower_text(content@),
{
    let source: Vec<char> = chars_of(content);
    let mut result: String = String::new();
    for index in 0..source.len()
        invariant
            result@ == lower_text(source@).take(index as int),
    {
        result.push(to_ascii_lowercase(source[index]));
    }
    assert(lower_text(source@).take(source@.len() as int) =~= lower_text(source@));
    result
}

pub fn capitalize(content: &[char]) -> (result: Vec<char>)
    ensures
        result@ == capitalized(content@),
{
    let mut result: Vec<char> = Vec::new();
    for index in 0..content.len()
        invariant
            result@ == capitalized(content@).take(index as int),
    {
        if index == 0 {
            result.push(to_ascii_uppercase(content[index]));
        } else {
            result.push(content[index]);
        }
        assert(capitalized(content@).take(index + 1) =~= capitalized(content@).take(
            index as int,
        ).push(result@.last()));
    }
    assert(capitalized(content@).take(content@.len() as int) =~= capitalized(content@));
    result
}

/// The tokens of one span: their lower-case forms, where each ends in the source, and whether the
/// span begins with a capital.
#[verifier::ext_equal]
pub struct Span {
    pub words: Seq<Seq<char>>,
    pub ends: Seq<nat>,
    pub capital: bool,
}

impl Span {
    /// Where the span ends in the source.
    pub open spec fn end(self) -> nat {
        self.ends.last()
    }
}

/// A rendered word.
pub open spec fn rendered(content: Seq<char>, source_end: nat, kind: WordKind) -> Rendered {
    Rendered { text: content, kind, source_end }
}

/// A text behind a space.
pub open spec fn spaced(content: Seq<char>) -> Seq<char> {
    seq![' '] + content
}

/// Every word names a digit.
pub open spec fn all_digit_words(words: Seq<Seq<char>>) -> bool {
    forall|index: int|
        0 <= index < words.len() ==> english_numbers::digit_word(#[trigger] words[index]) is Some
}

/// The digits that words name.
pub open spec fn digits_text(words: Seq<Seq<char>>) -> Seq<char> {
    Seq::new(words.len(), |index: int| english_numbers::digit_word(words[index])->0)
}

/// A year of four digits.
pub open spec fn full_year(year: Option<int>) -> bool {
    year is Some && 1000 <= year->0 <= 9999
}

/// `Call` and a telephone number.
pub open spec fn call_rule(span: Span) -> Option<Seq<Rendered>> {
    if span.words[0] == "call"@ && all_digit_words(span.words.skip(1)) {
        Some(
            seq![
                rendered(" Call"@, span.ends[0], WordKind::Text),
                rendered(
                    spaced(digits_text(span.words.skip(1))),
                    span.end(),
                    WordKind::Number,
                ),
            ],
        )
    } else {
        None
    }
}

/// The words `from..` of a span as plain text.
pub open spec fn plain_words(span: Span, from: int) -> Seq<Rendered> {
    Seq::new(
        (span.words.len() - from) as nat,
        |index: int|
            rendered(spaced(span.words[from + index]), span.ends[from + index], WordKind::Text),
    )
}

/// The words `..to` of a span as plain text that begins with a capital.
pub open spec fn title_words(span: Span, to: int) -> Seq<Rendered> {
    Seq::new(
        to as nat,
        |index: int|
            rendered(
                spaced(
                    if index == 0 {
                        capitalized(span.words[0])
                    } else {
                        span.words[index]
                    },
                ),
                span.ends[index],
                WordKind::Text,
            ),
    )
}

/// A month, a day and a year, with the day read up to word `split`.
pub open spec fn date_split(span: Span, split: int) -> Option<Seq<Rendered>> {
    let ordinal = english_numbers::ordinal_number(span.words.subrange(1, split));
    let year = english_numbers::year_number(span.words.subrange(split, span.words.len() as int));
    if span.capital && ordinal is Some && year is Some {
        Some(
            seq![
                rendered(spaced(capitalized(span.words[0])), span.ends[0], WordKind::Text),
                rendered(
                    spaced(
                        text::decimal(ordinal->0 as nat) + english_numbers::ordinal_ending(
                            ordinal->0,
                        ),
                    ),
                    span.ends[split - 1],
                    WordKind::Number,
                ),
                rendered(", "@, span.ends[split - 1], WordKind::Punctuation),
                rendered(text::decimal(year->0 as nat), span.end(), WordKind::Number),
            ],
        )
    } else if ordinal is Some && split == 2 && english_numbers::ordinal_word(
        span.words[1],
    ) is Some {
        let month_day = rendered(
            spaced(capitalized(span.words[0])) + spaced(text::decimal(ordinal->0 as nat)),
            span.ends[1],
            WordKind::Text,
        );
        if full_year(year) {
            Some(
                seq![
                    month_day,
                    rendered(spaced(text::decimal(year->0 as nat)), span.end(), WordKind::Number),
                ],
            )
        } else {
            Some(seq![month_day] + plain_words(span, split))
        }
    } else if ordinal is Some && full_year(year) {
        Some(
            title_words(span, split).push(
                rendered(spaced(text::decimal(year->0 as nat)), span.end(), WordKind::Number),
            ),
        )
    } else {
        None
    }
}

/// The first way from `split` on to read a date.
pub open spec fn date_from(span: Span, split: int) -> Option<Seq<Rendered>>
    decreases span.words.len() - split,
{
    if split >= span.words.len() {
        None
    } else if date_split(span, split) is Some {
        date_split(span, split)
    } else {
        date_from(span, split + 1)
    }
}

/// A date that begins with the name of a month.
pub open spec fn date_rule(span: Span) -> Option<Seq<Rendered>> {
    if english_numbers::month_word(span.words[0]) && span.words.len() >= 4 {
        date_from(span, 2)
    } else {
        None
    }
}

/// The letters of `a m` or `p m` at the end of a span.
pub open spec fn meridiem(span: Span) -> Rendered {
    let content = span.words.len() - 2;
    rendered(
        spaced(span.words[content] + span.words[content + 1]),
        span.end(),
        WordKind::Text,
    )
}

/// A time of day with the hour read up to word `split`.
pub open spec fn time_split(span: Span, split: int) -> Option<Seq<Rendered>> {
    let content = span.words.len() - 2;
    let hour = english_numbers::cardinal_number(span.words.subrange(0, split));
    let minute = english_numbers::cardinal_number(span.words.subrange(split, content));
    if hour is Some && 0 <= hour->0 <= 23 && minute is Some && 1 <= minute->0 <= 59 {
        Some(
            seq![
                rendered(
                    text::decimal(hour->0 as nat) + seq![':'] + text::two_digits(minute->0 as nat),
                    span.ends[content - 1],
                    WordKind::Number,
                ),
                meridiem(span),
            ],
        )
    } else if hour is Some && hour->0 >= 10 && split + 1 == content && (span.words[split] == "zero"@
        || span.words[split] == "oh"@) {
        Some(
            seq![
                rendered(text::decimal(hour->0 as nat), span.ends[split - 1], WordKind::Number),
                rendered(spaced(span.words[split]), span.ends[content - 1], WordKind::Text),
                meridiem(span),
            ],
        )
    } else {
        None
    }
}

/// The first way from `split` on to read a time of day.
pub open spec fn time_from(span: Span, split: int) -> Option<Seq<Rendered>>
    decreases span.words.len() - split,
{
    if split >= span.words.len() - 2 {
        None
    } else if time_split(span, split) is Some {
        time_split(span, split)
    } else {
        time_from(span, split + 1)
    }
}

/// The span ends in `a m` or `p m` behind at least two words.
pub open spec fn ends_in_meridiem(span: Span) -> bool {
    let count = span.words.len();
    count >= 4 && (span.words[count - 2] == "a"@ || span.words[count - 2] == "p"@)
        && span.words[count - 1] == "m"@
}

/// A time of day that ends in `a m` or `p m`.
pub open spec fn time_rule(span: Span) -> Option<Seq<Rendered>> {
    let content = span.words.len() - 2;
    if !ends_in_meridiem(span) {
        None
    } else if content == 2 && span.words[0] == "nine"@ && span.words[1] == "eleven"@ {
        Some(seq![rendered(" 911"@, span.ends[content - 1], WordKind::Number), meridiem(span)])
    } else if time_from(span, 1) is Some {
        time_from(span, 1)
    } else if all_digit_words(span.words.subrange(0, content)) {
        Some(
            seq![
                rendered(
                    digits_text(span.words.subrange(0, content)),
                    span.ends[content - 1],
                    WordKind::Number,
                ),
                meridiem(span),
            ],
        )
    } else {
        None
    }
}

/// A percentage; above one hundred the word stays.
pub open spec fn percent_rule(span: Span) -> Option<Seq<Rendered>> {
    let count = span.words.len();
    let value = english_numbers::cardinal_number(span.words.subrange(0, count - 1));
    if span.words[count - 1] == "percent"@ && value is Some {
        Some(
            seq![
                rendered(text::decimal(value->0 as nat), span.ends[count - 2], WordKind::Number),
                if value->0 > 100 {
                    rendered(" percent"@, span.end(), WordKind::Text)
                } else {
                    rendered("%"@, span.end(), WordKind::Number)
                },
            ],
        )
    } else {
        None
    }
}

/// The position of the first `point` from `index` on.
pub open spec fn point_at(words: Seq<Seq<char>>, index: int) -> int
    decreases words.len() - index,
{
    if index >= words.len() || words[index] == "point"@ {
        index
    } else {
        point_at(words, index + 1)
    }
}

/// A decimal number.
pub open spec fn point_rule(span: Span) -> Option<Seq<Rendered>> {
    let point = point_at(span.words, 0);
    let count = span.words.len() as int;
    let whole = english_numbers::cardinal_number(span.words.subrange(0, point));
    let decimals = span.words.subrange(point + 1, count);
    if point + 1 < count && whole is Some && all_digit_words(decimals) {
        Some(
            seq![
                rendered(text::decimal(whole->0 as nat), span.ends[point - 1], WordKind::Number),
                rendered("."@, span.ends[point], WordKind::Number),
                rendered(digits_text(decimals), span.end(), WordKind::Number),
            ],
        )
    } else {
        None
    }
}

/// A fraction.
pub open spec fn fraction_rule(span: Span) -> Option<Seq<Rendered>> {
    let count = span.words.len() as int;
    let denominator = english_numbers::fraction_word(span.words.last());
    let numerator = english_numbers::cardinal_number(span.words.subrange(0, count - 1));
    if count >= 2 && denominator is Some && numerator is Some {
        Some(
            seq![
                rendered(
                    text::decimal(numerator->0 as nat) + seq!['/'] + text::decimal(
                        denominator->0 as nat,
                    ),
                    span.end(),
                    WordKind::Number,
                ),
            ],
        )
    } else {
        None
    }
}

/// An ordinal, which may follow `the`.
pub open spec fn ordinal_rule(span: Span) -> Option<Seq<Rendered>> {
    let count = span.words.len() as int;
    let article = span.words[0] == "the"@ && count > 2;
    let ordinal = english_numbers::ordinal_number(
        span.words.subrange(
            if article {
                1
            } else {
                0
            },
            count,
        ),
    );
    if count >= 2 && english_numbers::ordinal_word(span.words.last()) is Some && ordinal is Some {
        let numeral = text::decimal(ordinal->0 as nat) + english_numbers::ordinal_ending(
            ordinal->0,
        );
        if article {
            Some(
                seq![
                    rendered(" The"@, span.ends[0], WordKind::Text),
                    rendered(spaced(numeral), span.end(), WordKind::Number),
                ],
            )
        } else {
            Some(seq![rendered(numeral, span.end(), WordKind::Number)])
        }
    } else {
        None
    }
}

/// A sequence of digits, a cardinal or a year.
pub open spec fn number_rule(span: Span) -> Option<Seq<Rendered>> {
    let count = span.words.len();
    let cardinal = english_numbers::cardinal_number(span.words);
    let year = english_numbers::year_number(span.words);
    if count > 1 && all_digit_words(span.words) {
        Some(seq![rendered(digits_text(span.words), span.end(), WordKind::Number)])
    } else if cardinal is Some && (count > 1 || cardinal->0 >= 10) {
        Some(seq![rendered(text::decimal(cardinal->0 as nat), span.end(), WordKind::Number)])
    } else if year is Some && count > 1 {
        Some(seq![rendered(text::decimal(year->0 as nat), span.end(), WordKind::Number)])
    } else {
        None
    }
}

/// The first rule that reads the span.
pub open spec fn grammar(span: Span) -> Option<Seq<Rendered>> {
    if call_rule(span) is Some {
        call_rule(span)
    } else if date_rule(span) is Some {
        date_rule(span)
    } else if time_rule(span) is Some {
        time_rule(span)
    } else if percent_rule(span) is Some {
        percent_rule(span)
    } else if point_rule(span) is Some {
        point_rule(span)
    } else if fraction_rule(span) is Some {
        fraction_rule(span)
    } else if ordinal_rule(span) is Some {
        ordinal_rule(span)
    } else {
        number_rule(span)
    }
}

/// Every token is made of ASCII letters.
pub open spec fn all_letter_tokens(tokens: Seq<Seq<char>>) -> bool {
    forall|index: int| 0 <= index < tokens.len() ==> text::ascii_letters(#[trigger] tokens[index])
}

/// The span of tokens.
pub open spec fn span_of(tokens: Seq<Seq<char>>) -> Span {
    Span {
        words: Seq::new(tokens.len(), |index: int| lower_text(tokens[index])),
        ends: Seq::new(tokens.len(), |index: int| words::token_end(tokens, index + 1) as nat),
        capital: tokens.len() > 0 && tokens[0].len() > 0 && is_ascii_uppercase(tokens[0][0]),
    }
}

/// The words of one span of tokens: what its grammar reads, or else the given ones.
pub open spec fn span_words(tokens: Seq<Seq<char>>, words: Seq<Rendered>) -> Seq<Rendered> {
    if tokens.len() == 0 || !all_letter_tokens(tokens) {
        words
    } else {
        match grammar(span_of(tokens)) {
            Some(output) => output,
            None => words,
        }
    }
}

/// The view of optional words.
pub open spec fn words_option(words: Option<Vec<RenderedWord>>) -> Option<Seq<Rendered>> {
    match words {
        Some(words) => Some(types::rendered_views(words@)),
        None => None,
    }
}

/// The tokens of one span.
struct GrammarSpan {
    words: Vec<String>,
    ends: Vec<usize>,
    capital: bool,
}

impl View for GrammarSpan {
    type V = Span;

    closed spec fn view(&self) -> Span {
        Span {
            words: types::text_views(self.words@),
            ends: Seq::new(self.ends@.len(), |index: int| self.ends@[index] as nat),
            capital: self.capital,
        }
    }
}

/// One rendered word.
fn one_word(content: &[char], source_end: usize, kind: WordKind) -> (output: Vec<RenderedWord>)
    ensures
        types::rendered_views(output@) == seq![rendered(content@, source_end as nat, kind)],
{
    let mut output: Vec<RenderedWord> = Vec::new();
    add_word(&mut output, content, source_end, kind);
    assert(types::rendered_views(output@) =~= seq![rendered(content@, source_end as nat, kind)]);
    output
}

/// Appends a rendered word.
fn add_word(output: &mut Vec<RenderedWord>, content: &[char], source_end: usize, kind: WordKind)
    ensures
        types::rendered_views(final(output)@) == types::rendered_views(old(output)@).push(
            rendered(content@, source_end as nat, kind),
        ),
{
    output.push(RenderedWord::from_chars(content, kind, source_end));
    assert(types::rendered_views(output@) =~= types::rendered_views(old(output)@).push(
        rendered(content@, source_end as nat, kind),
    ));
}

/// The text of a word behind a space.
fn spaced_text(content: &str) -> (result: Vec<char>)
    ensures
        result@ == spaced(content@),
{
    prepend(' ', &chars_of(content))
}

/// The numeral of an ordinal.
fn ordinal_text(ordinal: i64) -> (result: Vec<char>)
    requires
        ordinal >= 0,
    ensures
        result@ == text::decimal(ordinal as nat) + english_numbers::ordinal_ending(ordinal as int),
{
    let mut result: Vec<char> = decimal_text(ordinal as u64);
    push_text(&mut result, ordinal_suffix(ordinal));
    result
}

fn is_full_year(year: Option<i64>) -> (result: bool)
    ensures
        result == full_year(crate::numeric::as_int(year)),
{
    match year {
        Some(year) => 1000 <= year && year <= 9999,
        None => false,
    }
}

impl GrammarSpan {
    spec fn valid(self) -> bool {
        self.words@.len() > 0 && self.ends@.len() == self.words@.len()
    }

    /// Decides whether the words `from..to` all name digits.
    fn are_digits(&self, from: usize, to: usize) -> (result: bool)
        requires
            from <= to <= self.words@.len(),
        ensures
            result == all_digit_words(self@.words.subrange(from as int, to as int)),
    {
        let ghost views = self@.words.subrange(from as int, to as int);
        for index in from..to
            invariant
                from <= to <= self.words@.len(),
                views == self@.words.subrange(from as int, to as int),
                forall|earlier: int|
                    0 <= earlier < index - from ==> english_numbers::digit_word(
                        #[trigger] views[earlier],
                    ) is Some,
        {
            assert(views[index - from] == self.words@[index as int]@);
            if english_digit(self.words[index].as_str()).is_none() {
                return false;
            }
        }
        true
    }

    /// The digits that the words `from..to` name.
    fn digits(&self, from: usize, to: usize) -> (result: Vec<char>)
        requires
            from <= to <= self.words@.len(),
            all_digit_words(self@.words.subrange(from as int, to as int)),
        ensures
            result@ == digits_text(self@.words.subrange(from as int, to as int)),
    {
        let ghost views = self@.words.subrange(from as int, to as int);
        let mut result: Vec<char> = Vec::new();
        for index in from..to
            invariant
                from <= to <= self.words@.len(),
                views == self@.words.subrange(from as int, to as int),
                all_digit_words(views),
                result@ == digits_text(views).take(index - from),
        {
            assert(views[index - from] == self.words@[index as int]@);
            if let Some(digit) = english_digit(self.words[index].as_str()) {
                result.push(digit);
            }
            assert(digits_text(views).take(index - from + 1) =~= digits_text(views).take(
                index - from,
            ).push(digits_text(views)[index - from]));
        }
        assert(digits_text(views).take(to - from) =~= digits_text(views));
        result
    }

    fn call(&self) -> (output: Option<Vec<RenderedWord>>)
        requires
            self.valid(),
        ensures
            words_option(output) == call_rule(self@),
    {
        let count: usize = self.words.len();
        assert(self@.words.skip(1) =~= self@.words.subrange(1, count as int));
        if self.words[0].as_str().eq("call") && self.are_digits(1, count) {
            let mut output: Vec<RenderedWord> = one_word(
                &chars_of(" Call"),
                self.ends[0],
                WordKind::Text,
            );
            let digits: Vec<char> = self.digits(1, count);
            add_word(
                &mut output,
                &prepend(' ', &digits),
                self.ends[count - 1],
                WordKind::Number,
            );
            assert(types::rendered_views(output@) =~= call_rule(self@)->0);
            Some(output)
        } else {
            None
        }
    }

    /// Appends the words `from..` as plain text.
    fn add_plain_words(&self, output: &mut Vec<RenderedWord>, from: usize)
        requires
            self.valid(),
            from <= self.words@.len(),
        ensures
            types::rendered_views(final(output)@) == types::rendered_views(old(output)@)
                + plain_words(self@, from as int),
    {
        for index in from..self.words.len()
            invariant
                self.valid(),
                from <= self.words@.len(),
                types::rendered_views(output@) == types::rendered_views(old(output)@)
                    + plain_words(self@, from as int).take(index - from),
        {
            add_word(
                output,
                &spaced_text(self.words[index].as_str()),
                self.ends[index],
                WordKind::Text,
            );
            assert(plain_words(self@, from as int).take(index - from + 1) =~= plain_words(
                self@,
                from as int,
            ).take(index - from).push(plain_words(self@, from as int)[index - from]));
        }
        assert(plain_words(self@, from as int).take(self.words@.len() - from) =~= plain_words(
            self@,
            from as int,
        ));
    }

    /// The words `..to` as plain text that begins with a capital.
    fn make_title_words(&self, to: usize) -> (output: Vec<RenderedWord>)
        requires
            self.valid(),
            to <= self.words@.len(),
        ensures
            types::rendered_views(output@) == title_words(self@, to as int),
    {
        let mut output: Vec<RenderedWord> = Vec::new();
        assert(types::rendered_views(output@) =~= title_words(self@, to as int).take(0));
        for index in 0..to
            invariant
                self.valid(),
                to <= self.words@.len(),
                types::rendered_views(output@) == title_words(self@, to as int).take(index as int),
        {
            let content: Vec<char> = if index == 0 {
                prepend(' ', &capitalize(&chars_of(self.words[index].as_str())))
            } else {
                spaced_text(self.words[index].as_str())
            };
            add_word(&mut output, &content, self.ends[index], WordKind::Text);
            assert(title_words(self@, to as int).take(index + 1) =~= title_words(
                self@,
                to as int,
            ).take(index as int).push(title_words(self@, to as int)[index as int]));
        }
        assert(title_words(self@, to as int).take(to as int) =~= title_words(self@, to as int));
        output
    }

    /// The full date of a capitalised month.
    fn full_date(&self, split: usize, ordinal: i64, year: i64) -> (output: Vec<RenderedWord>)
        requires
            self.valid(),
            2 <= split < self.words@.len(),
            ordinal >= 0,
            year >= 0,
        ensures
            types::rendered_views(output@) == seq![
                rendered(spaced(capitalized(self@.words[0])), self@.ends[0], WordKind::Text),
                rendered(
                    spaced(
                        text::decimal(ordinal as nat) + english_numbers::ordinal_ending(
                            ordinal as int,
                        ),
                    ),
                    self@.ends[split - 1],
                    WordKind::Number,
                ),
                rendered(", "@, self@.ends[split - 1], WordKind::Punctuation),
                rendered(text::decimal(year as nat), self@.end(), WordKind::Number),
            ],
    {
        let month: Vec<char> = prepend(' ', &capitalize(&chars_of(self.words[0].as_str())));
        let mut output: Vec<RenderedWord> = one_word(&month, self.ends[0], WordKind::Text);
        let day: Vec<char> = prepend(' ', &ordinal_text(ordinal));
        add_word(&mut output, &day, self.ends[split - 1], WordKind::Number);
        add_word(&mut output, &chars_of(", "), self.ends[split - 1], WordKind::Punctuation);
        add_word(
            &mut output,
            &decimal_text(year as u64),
            self.ends[self.ends.len() - 1],
            WordKind::Number,
        );
        assert(types::rendered_views(output@) =~= seq![
            rendered(spaced(capitalized(self@.words[0])), self@.ends[0], WordKind::Text),
            rendered(
                spaced(
                    text::decimal(ordinal as nat) + english_numbers::ordinal_ending(
                        ordinal as int,
                    ),
                ),
                self@.ends[split - 1],
                WordKind::Number,
            ),
            rendered(", "@, self@.ends[split - 1], WordKind::Punctuation),
            rendered(text::decimal(year as nat), self@.end(), WordKind::Number),
        ]);
        output
    }

    /// Appends a year behind a space at the end of the span.
    fn add_year(&self, output: &mut Vec<RenderedWord>, year: i64)
        requires
            self.valid(),
            year >= 0,
        ensures
            types::rendered_views(final(output)@) == types::rendered_views(old(output)@).push(
                rendered(spaced(text::decimal(year as nat)), self@.end(), WordKind::Number),
            ),
    {
        add_word(
            output,
            &prepend(' ', &decimal_text(year as u64)),
            self.ends[self.ends.len() - 1],
            WordKind::Number,
        );
    }

    /// A date whose day is read up to word `split`.
    fn date_at(&self, split: usize) -> (output: Option<Vec<RenderedWord>>)
        requires
            self.valid(),
            2 <= split < self.words@.len(),
        ensures
            words_option(output) == date_split(self@, split as int),
    {
        let count: usize = self.words.len();
        let ordinal: i64 = match ordinal_between(&self.words, 1, split) {
            Some(ordinal) => ordinal,
            None => {
                return None;
            },
        };
        let year: Option<i64> = year_between(&self.words, split, count);
        if self.capital {
            if let Some(year) = year {
                let output: Vec<RenderedWord> = self.full_date(split, ordinal, year);
                assert(types::rendered_views(output@) =~= date_split(self@, split as int)->0);
                return Some(output);
            }
        }
        if split == 2 && is_ordinal_word(self.words[1].as_str()) {
            let mut month_day: Vec<char> = prepend(
                ' ',
                &capitalize(&chars_of(self.words[0].as_str())),
            );
            push_chars(&mut month_day, &prepend(' ', &decimal_text(ordinal as u64)));
            let mut output: Vec<RenderedWord> = one_word(&month_day, self.ends[1], WordKind::Text);
            if is_full_year(year) {
                if let Some(year) = year {
                    self.add_year(&mut output, year);
                }
            } else {
                self.add_plain_words(&mut output, split);
            }
            assert(types::rendered_views(output@) =~= date_split(self@, split as int)->0);
            return Some(output);
        }
        if is_full_year(year) {
            if let Some(year) = year {
                let mut output: Vec<RenderedWord> = self.make_title_words(split);
                self.add_year(&mut output, year);
                return Some(output);
            }
        }
        None
    }

    fn date(&self) -> (output: Option<Vec<RenderedWord>>)
        requires
            self.valid(),
        ensures
            words_option(output) == date_rule(self@),
    {
        if !is_english_month(self.words[0].as_str()) || self.words.len() < 4 {
            return None;
        }
        let mut split: usize = 2;
        while split < self.words.len()
            invariant
                self.valid(),
                2 <= split <= self.words@.len(),
                date_from(self@, 2) == date_from(self@, split as int),
                date_rule(self@) == date_from(self@, 2),
            decreases self.words@.len() - split,
        {
            let output: Option<Vec<RenderedWord>> = self.date_at(split);
            if output.is_some() {
                return output;
            }
            split = split + 1;
        }
        None
    }

    /// Appends the letters of `a m` or `p m`.
    fn add_meridiem(&self, output: &mut Vec<RenderedWord>)
        requires
            self.valid(),
            self.words@.len() >= 4,
        ensures
            types::rendered_views(final(output)@) == types::rendered_views(old(output)@).push(
                meridiem(self@),
            ),
    {
        let content: usize = self.words.len() - 2;
        let mut letters: Vec<char> = spaced_text(self.words[content].as_str());
        push_text(&mut letters, self.words[content + 1].as_str());
        assert(letters@ =~= meridiem(self@).text);
        add_word(output, &letters, self.ends[self.ends.len() - 1], WordKind::Text);
    }

    /// A time of day whose hour is read up to word `split`.
    fn time_at(&self, split: usize) -> (output: Option<Vec<RenderedWord>>)
        requires
            self.valid(),
            self.words@.len() >= 4,
            1 <= split < self.words@.len() - 2,
        ensures
            words_option(output) == time_split(self@, split as int),
    {
        let content: usize = self.words.len() - 2;
        let hour: i64 = match cardinal_between(&self.words, 0, split) {
            Some(hour) => hour,
            None => {
                return None;
            },
        };
        if let Some(minute) = cardinal_between(&self.words, split, content) {
            if hour <= 23 && 1 <= minute && minute <= 59 {
                let mut clock: Vec<char> = decimal_text(hour as u64);
                clock.push(':');
                push_chars(&mut clock, &two_digit_text(minute as u64));
                assert(clock@ =~= text::decimal(hour as nat) + seq![':'] + text::two_digits(
                    minute as nat,
                ));
                let mut output: Vec<RenderedWord> = one_word(
                    &clock,
                    self.ends[content - 1],
                    WordKind::Number,
                );
                self.add_meridiem(&mut output);
                assert(types::rendered_views(output@) =~= time_split(self@, split as int)->0);
                return Some(output);
            }
        }
        if hour >= 10 && split + 1 == content && (self.words[split].as_str().eq("zero")
            || self.words[split].as_str().eq("oh")) {
            let mut output: Vec<RenderedWord> = one_word(
                &decimal_text(hour as u64),
                self.ends[split - 1],
                WordKind::Number,
            );
            add_word(
                &mut output,
                &spaced_text(self.words[split].as_str()),
                self.ends[content - 1],
                WordKind::Text,
            );
            self.add_meridiem(&mut output);
            assert(types::rendered_views(output@) =~= time_split(self@, split as int)->0);
            return Some(output);
        }
        None
    }

    fn time(&self) -> (output: Option<Vec<RenderedWord>>)
        requires
            self.valid(),
        ensures
            words_option(output) == time_rule(self@),
    {
        let count: usize = self.words.len();
        if count < 4 || !(self.words[count - 2].as_str().eq("a") || self.words[count
            - 2].as_str().eq("p")) || !self.words[count - 1].as_str().eq("m") {
            return None;
        }
        let content: usize = count - 2;
        if content == 2 && self.words[0].as_str().eq("nine") && self.words[1].as_str().eq(
            "eleven",
        ) {
            let mut output: Vec<RenderedWord> = one_word(
                &chars_of(" 911"),
                self.ends[content - 1],
                WordKind::Number,
            );
            self.add_meridiem(&mut output);
            assert(types::rendered_views(output@) =~= time_rule(self@)->0);
            return Some(output);
        }
        let mut split: usize = 1;
        while split < content
            invariant
                self.valid(),
                content == self.words@.len() - 2,
                1 <= split <= content,
                time_from(self@, 1) == time_from(self@, split as int),
                time_from(self@, 1) is Some ==> time_rule(self@) == time_from(self@, 1),
            decreases content - split,
        {
            let output: Option<Vec<RenderedWord>> = self.time_at(split);
            if output.is_some() {
                return output;
            }
            split = split + 1;
        }
        if self.are_digits(0, content) {
            let mut output: Vec<RenderedWord> = one_word(
                &self.digits(0, content),
                self.ends[content - 1],
                WordKind::Number,
            );
            self.add_meridiem(&mut output);
            assert(types::rendered_views(output@) =~= time_rule(self@)->0);
            return Some(output);
        }
        None
    }

    fn percent(&self) -> (output: Option<Vec<RenderedWord>>)
        requires
            self.valid(),
        ensures
            words_option(output) == percent_rule(self@),
    {
        let count: usize = self.words.len();
        if !self.words[count - 1].as_str().eq("percent") {
            return None;
        }
        match cardinal_between(&self.words, 0, count - 1) {
            Some(value) => {
                assert(count > 1) by {
                    if count == 1 {
                        assert(self@.words.subrange(0, 0).len() == 0);
                        assert(english_numbers::cardinal_number(self@.words.subrange(0, 0)) is None);
                    }
                }
                let mut output: Vec<RenderedWord> = one_word(
                    &decimal_text(value as u64),
                    self.ends[count - 2],
                    WordKind::Number,
                );
                if value > 100 {
                    add_word(
                        &mut output,
                        &chars_of(" percent"),
                        self.ends[count - 1],
                        WordKind::Text,
                    );
                } else {
                    add_word(&mut output, &chars_of("%"), self.ends[count - 1], WordKind::Number);
                }
                assert(types::rendered_views(output@) =~= percent_rule(self@)->0);
                Some(output)
            },
            None => None,
        }
    }

    fn point(&self) -> (output: Option<Vec<RenderedWord>>)
        requires
            self.valid(),
        ensures
            words_option(output) == point_rule(self@),
    {
        let count: usize = self.words.len();
        let mut point: usize = 0;
        while point < count && !self.words[point].as_str().eq("point")
            invariant
                point <= count == self.words@.len(),
                point_at(self@.words, 0) == point_at(self@.words, point as int),
            decreases count - point,
        {
            point = point + 1;
        }
        if point >= count || point + 1 >= count {
            return None;
        }
        match cardinal_between(&self.words, 0, point) {
            Some(whole) => {
                assert(point > 0) by {
                    if point == 0 {
                        assert(self@.words.subrange(0, 0).len() == 0);
                        assert(english_numbers::cardinal_number(self@.words.subrange(0, 0)) is None);
                    }
                }
                if !self.are_digits(point + 1, count) {
                    return None;
                }
                let mut output: Vec<RenderedWord> = one_word(
                    &decimal_text(whole as u64),
                    self.ends[point - 1],
                    WordKind::Number,
                );
                add_word(&mut output, &chars_of("."), self.ends[point], WordKind::Number);
                add_word(
                    &mut output,
                    &self.digits(point + 1, count),
                    self.ends[count - 1],
                    WordKind::Number,
                );
                assert(types::rendered_views(output@) =~= point_rule(self@)->0);
                Some(output)
            },
            None => None,
        }
    }

    fn fraction(&self) -> (output: Option<Vec<RenderedWord>>)
        requires
            self.valid(),
        ensures
            words_option(output) == fraction_rule(self@),
    {
        let count: usize = self.words.len();
        if count < 2 {
            return None;
        }
        match fraction_denominator(self.words[count - 1].as_str()) {
            Some(denominator) => match cardinal_between(&self.words, 0, count - 1) {
                Some(numerator) => {
                    let mut quotient: Vec<char> = decimal_text(numerator as u64);
                    quotient.push('/');
                    push_chars(&mut quotient, &decimal_text(denominator as u64));
                    assert(quotient@ =~= text::decimal(numerator as nat) + seq!['/']
                        + text::decimal(denominator as nat));
                    Some(one_word(&quotient, self.ends[count - 1], WordKind::Number))
                },
                None => None,
            },
            None => None,
        }
    }

    fn ordinal(&self) -> (output: Option<Vec<RenderedWord>>)
        requires
            self.valid(),
        ensures
            words_option(output) == ordinal_rule(self@),
    {
        let count: usize = self.words.len();
        if count < 2 || !is_ordinal_word(self.words[count - 1].as_str()) {
            return None;
        }
        let article: bool = self.words[0].as_str().eq("the") && count > 2;
        let start: usize = if article {
            1
        } else {
            0
        };
        match ordinal_between(&self.words, start, count) {
            Some(ordinal) => {
                let numeral: Vec<char> = ordinal_text(ordinal);
                if article {
                    let mut output: Vec<RenderedWord> = one_word(
                        &chars_of(" The"),
                        self.ends[0],
                        WordKind::Text,
                    );
                    add_word(
                        &mut output,
                        &prepend(' ', &numeral),
                        self.ends[count - 1],
                        WordKind::Number,
                    );
                    assert(types::rendered_views(output@) =~= ordinal_rule(self@)->0);
                    Some(output)
                } else {
                    Some(one_word(&numeral, self.ends[count - 1], WordKind::Number))
                }
            },
            None => None,
        }
    }

    fn number(&self) -> (output: Option<Vec<RenderedWord>>)
        requires
            self.valid(),
        ensures
            words_option(output) == number_rule(self@),
    {
        let count: usize = self.words.len();
        assert(self@.words.subrange(0, count as int) =~= self@.words);
        let end: usize = self.ends[count - 1];
        if count > 1 && self.are_digits(0, count) {
            return Some(one_word(&self.digits(0, count), end, WordKind::Number));
        }
        if let Some(cardinal) = cardinal_between(&self.words, 0, count) {
            if count > 1 || cardinal >= 10 {
                return Some(one_word(&decimal_text(cardinal as u64), end, WordKind::Number));
            }
        }
        if count > 1 {
            if let Some(year) = year_between(&self.words, 0, count) {
                return Some(one_word(&decimal_text(year as u64), end, WordKind::Number));
            }
        }
        None
    }

    /// What the first rule that reads the span makes of it.
    fn read(&self) -> (output: Option<Vec<RenderedWord>>)
        requires
            self.valid(),
        ensures
            words_option(output) == grammar(self@),
    {
        let call: Option<Vec<RenderedWord>> = self.call();
        if call.is_some() {
            return call;
        }
        let date: Option<Vec<RenderedWord>> = self.date();
        if date.is_some() {
            return date;
        }
        let time: Option<Vec<RenderedWord>> = self.time();
        if time.is_some() {
            return time;
        }
        let percent: Option<Vec<RenderedWord>> = self.percent();
        if percent.is_some() {
            return percent;
        }
        let point: Option<Vec<RenderedWord>> = self.point();
        if point.is_some() {
            return point;
        }
        let fraction: Option<Vec<RenderedWord>> = self.fraction();
        if fraction.is_some() {
            return fraction;
        }
        let ordinal: Option<Vec<RenderedWord>> = self.ordinal();
        if ordinal.is_some() {
            return ordinal;
        }
        self.number()
    }
}

/// Every word ends at or before `limit` in the source.
pub open spec fn ends_within(words: Seq<Rendered>, limit: nat) -> bool {
    forall|index: int| 0 <= index < words.len() ==> (#[trigger] words[index]).source_end <= limit
}

/// No token ends before an earlier one.
pub open spec fn ordered_ends(span: Span) -> bool {
    &&& span.words.len() > 0
    &&& span.ends.len() == span.words.len()
    &&& forall|early: int, late: int|
        0 <= early <= late < span.ends.len() ==> #[trigger] span.ends[early]
            <= #[trigger] span.ends[late]
}

proof fn lemma_date_ends(span: Span, split: int)
    requires
        ordered_ends(span),
        2 <= split,
    ensures
        date_from(span, split) matches Some(words) ==> ends_within(words, span.end()),
    decreases span.words.len() - split,
{
    if split < span.words.len() {
        let output = date_split(span, split);
        if output is Some {
            let words = output->0;
            assert forall|index: int| 0 <= index < words.len() implies (
            #[trigger] words[index]).source_end <= span.end() by {
                let limit = span.ends.len() - 1;
                assert(span.ends[0] <= span.ends[limit]);
                assert(span.ends[1] <= span.ends[limit]);
                assert(span.ends[split - 1] <= span.ends[limit]);
                if index < limit {
                    assert(span.ends[index] <= span.ends[limit]);
                }
                if split + index - 1 <= limit {
                    assert(span.ends[split + index - 1] <= span.ends[limit]);
                }
            }
        } else {
            lemma_date_ends(span, split + 1);
        }
    }
}

proof fn lemma_time_ends(span: Span, split: int)
    requires
        ordered_ends(span),
        1 <= split,
    ensures
        time_from(span, split) matches Some(words) ==> ends_within(words, span.end()),
    decreases span.words.len() - split,
{
    if split < span.words.len() - 2 {
        if time_split(span, split) is None {
            lemma_time_ends(span, split + 1);
        }
    }
}

proof fn lemma_no_cardinal_of_nothing(words: Seq<Seq<char>>)
    ensures
        english_numbers::cardinal_number(words.subrange(0, 0)) is None,
{
    assert(words.subrange(0, 0).len() == 0);
}

proof fn lemma_call_rule_ends(span: Span)
    requires
        ordered_ends(span),
    ensures
        call_rule(span) matches Some(words) ==> ends_within(words, span.end()),
{
}

proof fn lemma_percent_rule_ends(span: Span)
    requires
        ordered_ends(span),
    ensures
        percent_rule(span) matches Some(words) ==> ends_within(words, span.end()),
{
    if percent_rule(span) is Some {
        assert(span.words.len() > 1) by {
            if span.words.len() == 1 {
                lemma_no_cardinal_of_nothing(span.words);
            }
        }
    }
}

proof fn lemma_point_rule_ends(span: Span)
    requires
        ordered_ends(span),
    ensures
        point_rule(span) matches Some(words) ==> ends_within(words, span.end()),
{
    lemma_point_at(span.words, 0);
    if point_rule(span) is Some && point_at(span.words, 0) == 0 {
        lemma_no_cardinal_of_nothing(span.words);
    }
}

proof fn lemma_fraction_rule_ends(span: Span)
    requires
        ordered_ends(span),
    ensures
        fraction_rule(span) matches Some(words) ==> ends_within(words, span.end()),
{
}

proof fn lemma_ordinal_rule_ends(span: Span)
    requires
        ordered_ends(span),
    ensures
        ordinal_rule(span) matches Some(words) ==> ends_within(words, span.end()),
{
}

proof fn lemma_number_rule_ends(span: Span)
    requires
        ordered_ends(span),
    ensures
        number_rule(span) matches Some(words) ==> ends_within(words, span.end()),
{
}

proof fn lemma_time_rule_ends(span: Span)
    requires
        ordered_ends(span),
    ensures
        time_rule(span) matches Some(words) ==> ends_within(words, span.end()),
{
    lemma_time_ends(span, 1);
}

/// What a rule makes of a span ends within the span.
pub proof fn law_grammar_stays_in_its_span(span: Span)
    requires
        ordered_ends(span),
    ensures
        grammar(span) matches Some(words) ==> ends_within(words, span.end()),
{
    lemma_call_rule_ends(span);
    lemma_date_ends(span, 2);
    lemma_time_rule_ends(span);
    lemma_percent_rule_ends(span);
    lemma_point_rule_ends(span);
    lemma_fraction_rule_ends(span);
    lemma_ordinal_rule_ends(span);
    lemma_number_rule_ends(span);
}

proof fn lemma_point_at(words: Seq<Seq<char>>, index: int)
    requires
        0 <= index,
    ensures
        index <= point_at(words, index),
    decreases words.len() - index,
{
    if index < words.len() && words[index] != "point"@ {
        lemma_point_at(words, index + 1);
    }
}

/// The tokens' ends in the source.
pub fn token_source_ends(tokens: &[String]) -> (ends: Vec<usize>)
    requires
        types::concat(types::text_views(tokens@)).len() <= usize::MAX,
    ensures
        ends@.len() == tokens@.len(),
        forall|index: int|
            0 <= index < tokens@.len() ==> #[trigger] ends@[index] == words::token_end(
                types::text_views(tokens@),
                index + 1,
            ),
{
    let ghost views = types::text_views(tokens@);
    let mut ends: Vec<usize> = Vec::new();
    let mut cursor: usize = 0;
    assert(views.take(views.len() as int) =~= views);
    assert(views.take(0) =~= Seq::empty());
    for index in 0..tokens.len()
        invariant
            views == types::text_views(tokens@),
            words::token_end(views, views.len() as int) <= usize::MAX,
            cursor == words::token_end(views, index as int),
            ends@.len() == index,
            forall|earlier: int|
                0 <= earlier < index ==> #[trigger] ends@[earlier] == words::token_end(
                    views,
                    earlier + 1,
                ),
    {
        proof {
            words::lemma_token_end_step(views, index as int);
            words::lemma_token_end_grows(views, index + 1, views.len() as int);
        }
        cursor = cursor + char_count(tokens[index].as_str());
        ends.push(cursor);
    }
    ends
}

/// Decides whether every token is made of ASCII letters.
pub fn are_letter_tokens(tokens: &[String]) -> (result: bool)
    ensures
        result == all_letter_tokens(types::text_views(tokens@)),
{
    let ghost views = types::text_views(tokens@);
    for index in 0..tokens.len()
        invariant
            views == types::text_views(tokens@),
            forall|earlier: int|
                0 <= earlier < index ==> text::ascii_letters(#[trigger] views[earlier]),
    {
        if !are_ascii_letters(&chars_of(tokens[index].as_str())) {
            assert(!text::ascii_letters(views[index as int]));
            return false;
        }
    }
    true
}

/// The words of one span of tokens.
pub fn apply_english_grammar_span(
    tokens: &[String],
    words: &[RenderedWord],
) -> (output: Vec<RenderedWord>)
    requires
        types::concat(types::text_views(tokens@)).len() <= usize::MAX,
    ensures
        types::rendered_views(output@) == span_words(
            types::text_views(tokens@),
            types::rendered_views(words@),
        ),
{
    if tokens.len() == 0 || !are_letter_tokens(tokens) {
        return copy_words(words);
    }
    let ghost views = types::text_views(tokens@);
    let ends: Vec<usize> = token_source_ends(tokens);
    let mut lowered: Vec<String> = Vec::new();
    for index in 0..tokens.len()
        invariant
            views == types::text_views(tokens@),
            lowered@.len() == index,
            forall|earlier: int|
                0 <= earlier < index ==> (#[trigger] lowered@[earlier])@ == lower_text(
                    views[earlier],
                ),
    {
        lowered.push(to_lower(tokens[index].as_str()));
    }
    let first: Vec<char> = chars_of(tokens[0].as_str());
    let span = GrammarSpan {
        words: lowered,
        ends,
        capital: first.len() > 0 && is_ascii_uppercase(first[0]),
    };
    assert(span@.words =~= span_of(views).words);
    assert(span@.ends =~= span_of(views).ends);
    assert(span@ == span_of(views));
    match span.read() {
        Some(output) => output,
        None => copy_words(words),
    }
}

/// A reading of a time of day: the words before `split` name an hour and those behind it minutes.
pub open spec fn reads_as_time(span: Span, split: int) -> bool {
    let content = span.words.len() - 2;
    let hour = english_numbers::cardinal_number(span.words.subrange(0, split));
    let minute = english_numbers::cardinal_number(span.words.subrange(split, content));
    &&& 1 <= split < content
    &&& hour is Some && 0 <= hour->0 <= 23
    &&& minute is Some && 1 <= minute->0 <= 59
}

proof fn lemma_first_time(span: Span, from: int, split: int) -> (first: int)
    requires
        1 <= from <= split,
        ends_in_meridiem(span),
        reads_as_time(span, split),
        forall|at: int| 1 <= at < from ==> !reads_as_time(span, at),
    ensures
        from <= first <= split,
        reads_as_time(span, first),
        forall|at: int| 1 <= at < first ==> !reads_as_time(span, at),
        time_from(span, from) == time_split(span, first),
    decreases split - from,
{
    if reads_as_time(span, from) {
        from
    } else {
        assert(time_split(span, from) is None);
        lemma_first_time(span, from + 1, split)
    }
}

/// A number begins neither a call nor a date.
proof fn lemma_numbers_begin_no_other(span: Span, split: int)
    requires
        1 <= split <= span.words.len(),
        english_numbers::cardinal_number(span.words.subrange(0, split)) is Some,
    ensures
        call_rule(span) is None,
        date_rule(span) is None,
{
    let number = span.words.subrange(0, split);
    english_numbers::lemma_words_of_numbers(number, 0);
    assert(number[0] == span.words[0]);
}

/// A time of day reads as its hour and its minutes in the order in which they are spoken: the digits
/// before the colon are the value of the first number, an hour, and the two digits behind it are the
/// value of the second one. Where the words can be parted in several ways, the shortest hour counts.
/// `nine eleven` is no time.
pub proof fn law_times_read_as_hour_and_minute(span: Span, split: int) -> (result: (int, int))
    requires
        ends_in_meridiem(span),
        reads_as_time(span, split),
        span.words[0] != "nine"@ || span.words[1] != "eleven"@ || span.words.len() > 4,
    ensures
        grammar(span) is Some,
        ({
            let (first, colon) = result;
            let content = span.words.len() - 2;
            let output = grammar(span)->0;
            let written = output[0].text;
            let hour = english_numbers::cardinal_number(span.words.subrange(0, first));
            let minute = english_numbers::cardinal_number(span.words.subrange(first, content));
            &&& 1 <= first <= split
            &&& reads_as_time(span, first)
            &&& forall|at: int| 1 <= at < first ==> !reads_as_time(span, at)
            &&& output.len() == 2
            &&& output[0].kind == WordKind::Number
            &&& written.len() == colon + 3
            &&& 0 < colon
            &&& written[colon] == ':'
            &&& numeric::reads(written.take(colon), hour->0)
            &&& numeric::reads(written.skip(colon + 1), minute->0)
            &&& numeric::digits_value(numeric::without_commas(written.take(colon))) < 24
            &&& numeric::digits_value(numeric::without_commas(written.skip(colon + 1))) < 60
            &&& output[1].text == seq![' '] + span.words[content] + seq!['m']
        }),
{
    let content = span.words.len() - 2;
    lemma_numbers_begin_no_other(span, split);
    let first = lemma_first_time(span, 1, split);
    let hour = english_numbers::cardinal_number(span.words.subrange(0, first));
    let minute = english_numbers::cardinal_number(span.words.subrange(first, content));
    numeric::law_numbers_read_as_their_value(hour->0 as nat);
    numeric::law_numbers_read_as_their_value(minute->0 as nat);
    let before = text::decimal(hour->0 as nat);
    let behind = text::two_digits(minute->0 as nat);
    let written = before + seq![':'] + behind;
    let colon = before.len() as int;
    assert(written.take(colon) =~= before);
    assert(written.skip(colon + 1) =~= behind);
    reveal_strlit("m");
    assert("m"@ =~= seq!['m']);
    assert(meridiem(span).text =~= seq![' '] + span.words[content] + seq!['m']);
    assert(time_rule(span) == time_split(span, first));
    (first, colon)
}

/// A span whose last word is no `m` is no time.
proof fn lemma_no_time(span: Span)
    requires
        span.words.len() > 0,
        span.words.last() != "m"@,
    ensures
        time_rule(span) is None,
{
}

/// A percentage reads as its number with the sign behind it; above one hundred the word stays.
pub proof fn law_percentages_read_as_number_and_sign(span: Span)
    requires
        span.words.len() >= 2,
        span.words.last() == "percent"@,
        english_numbers::cardinal_number(span.words.drop_last()) is Some,
    ensures
        grammar(span) is Some,
        ({
            let output = grammar(span)->0;
            let value = english_numbers::cardinal_number(span.words.drop_last())->0;
            &&& output.len() == 2
            &&& numeric::reads(output[0].text, value)
            &&& value <= 100 ==> output[1].text == "%"@
            &&& value > 100 ==> output[1].text == " percent"@
        }),
{
    let count = span.words.len() as int;
    let number = span.words.subrange(0, count - 1);
    assert(number =~= span.words.drop_last());
    lemma_numbers_begin_no_other(span, count - 1);
    english_numbers::lemma_percent_apart();
    lemma_no_time(span);
    english_numbers::lemma_numbers_are_natural(number);
    numeric::law_numbers_read_as_their_value(english_numbers::cardinal_number(number)->0 as nat);
}

proof fn lemma_point_found(words: Seq<Seq<char>>, index: int, point: int)
    requires
        0 <= index <= point <= words.len(),
        point < words.len() ==> words[point] == "point"@,
        forall|at: int| index <= at < point ==> words[at] != "point"@,
    ensures
        point_at(words, index) == point,
    decreases point - index,
{
    if index < point {
        lemma_point_found(words, index + 1, point);
    }
}

/// No word of a number is the point, so that a number with one word more has none inside.
proof fn lemma_no_point(span: Span, split: int)
    requires
        0 <= split <= span.words.len() <= split + 1,
        split > 0 ==> english_numbers::cardinal_number(span.words.subrange(0, split)) is Some,
        split < span.words.len() ==> span.words[split] != "point"@,
    ensures
        point_rule(span) is None,
{
    let number = span.words.subrange(0, split);
    assert forall|at: int| 0 <= at < span.words.len() implies span.words[at] != "point"@ by {
        if at < split {
            english_numbers::lemma_words_of_numbers(number, at);
            assert(number[at] == span.words[at]);
        }
    }
    lemma_point_found(span.words, 0, span.words.len() as int);
}

/// A decimal number reads as its whole part, the point and one digit for each word behind it.
pub proof fn law_decimals_read_as_whole_and_digits(span: Span, point: int)
    requires
        0 < point < span.words.len() - 1,
        english_numbers::cardinal_number(span.words.subrange(0, point)) is Some,
        span.words[point] == "point"@,
        forall|at: int|
            point < at < span.words.len() ==> english_numbers::digit_word(
                #[trigger] span.words[at],
            ) is Some,
    ensures
        grammar(span) is Some,
        ({
            let output = grammar(span)->0;
            let whole = english_numbers::cardinal_number(span.words.subrange(0, point))->0;
            &&& output.len() == 3
            &&& numeric::reads(output[0].text, whole)
            &&& output[1].text == "."@
            &&& output[2].text.len() == span.words.len() - point - 1
            &&& forall|at: int|
                point < at < span.words.len() ==> english_numbers::cardinal_word(
                    #[trigger] span.words[at],
                ) == Some(output[2].text[at - point - 1] as int - 48)
        }),
{
    let count = span.words.len() as int;
    let number = span.words.subrange(0, point);
    lemma_numbers_begin_no_other(span, point);
    assert(english_numbers::digit_word(span.words[count - 1]) is Some);
    english_numbers::law_digit_words_are_small_numbers(span.words[count - 1]);
    english_numbers::lemma_number_words_apart(span.words[count - 1]);
    lemma_no_time(span);
    assert(percent_rule(span) is None);
    assert forall|at: int| 0 <= at < point implies span.words[at] != "point"@ by {
        english_numbers::lemma_words_of_numbers(number, at);
        assert(number[at] == span.words[at]);
    }
    lemma_point_found(span.words, 0, point);
    let decimals = span.words.subrange(point + 1, count);
    assert forall|at: int| 0 <= at < decimals.len() implies english_numbers::digit_word(
        #[trigger] decimals[at],
    ) is Some by {
        assert(decimals[at] == span.words[point + 1 + at]);
    }
    english_numbers::lemma_numbers_are_natural(number);
    numeric::law_numbers_read_as_their_value(english_numbers::cardinal_number(number)->0 as nat);
    assert forall|at: int| point < at < count implies english_numbers::cardinal_word(
        #[trigger] span.words[at],
    ) == Some(grammar(span)->0[2].text[at - point - 1] as int - 48) by {
        assert(decimals[at - point - 1] == span.words[at]);
        english_numbers::law_digit_words_are_small_numbers(span.words[at]);
    }
}

/// A fraction reads as its numerator over its denominator.
pub proof fn law_fractions_read_as_numerator_over_denominator(span: Span) -> (slash: int)
    requires
        span.words.len() >= 2,
        english_numbers::cardinal_number(span.words.drop_last()) is Some,
        english_numbers::fraction_word(span.words.last()) is Some,
    ensures
        grammar(span) is Some,
        ({
            let output = grammar(span)->0;
            let written = output[0].text;
            &&& output.len() == 1
            &&& 0 < slash < written.len()
            &&& written[slash] == '/'
            &&& numeric::reads(
                written.take(slash),
                english_numbers::cardinal_number(span.words.drop_last())->0,
            )
            &&& numeric::reads(
                written.skip(slash + 1),
                english_numbers::fraction_word(span.words.last())->0,
            )
        }),
{
    let count = span.words.len() as int;
    let number = span.words.subrange(0, count - 1);
    assert(number =~= span.words.drop_last());
    english_numbers::lemma_fraction_words_apart(span.words.last());
    lemma_numbers_begin_no_other(span, count - 1);
    lemma_no_time(span);
    lemma_no_point(span, count - 1);
    english_numbers::lemma_numbers_are_natural(number);
    let numerator = english_numbers::cardinal_number(number)->0;
    let denominator = english_numbers::fraction_word(span.words.last())->0;
    numeric::law_numbers_read_as_their_value(numerator as nat);
    numeric::law_numbers_read_as_their_value(denominator as nat);
    let before = text::decimal(numerator as nat);
    let behind = text::decimal(denominator as nat);
    let written = before + seq!['/'] + behind;
    let slash = before.len() as int;
    assert(written.take(slash) =~= before);
    assert(written.skip(slash + 1) =~= behind);
    slash
}

/// An ordinal reads as its number with the ending of that number.
pub proof fn law_ordinals_read_as_number_and_ending(span: Span)
    requires
        span.words.len() >= 2,
        english_numbers::cardinal_number(span.words.drop_last()) is Some,
        english_numbers::ordinal_word(span.words.last()) is Some,
        english_numbers::fraction_word(span.words.last()) is None,
        english_numbers::ordinal_number(span.words) is Some,
    ensures
        grammar(span) is Some,
        ({
            let output = grammar(span)->0;
            let written = output[0].text;
            let value = english_numbers::ordinal_number(span.words)->0;
            &&& output.len() == 1
            &&& written.len() > 2
            &&& numeric::reads(written.take(written.len() - 2), value)
            &&& written.skip(written.len() - 2) == english_numbers::ordinal_ending(value)
        }),
{
    let count = span.words.len() as int;
    let number = span.words.subrange(0, count - 1);
    assert(number =~= span.words.drop_last());
    english_numbers::lemma_ordinal_words_apart(span.words.last());
    lemma_numbers_begin_no_other(span, count - 1);
    english_numbers::lemma_words_of_numbers(number, 0);
    assert(number[0] == span.words[0]);
    lemma_no_time(span);
    lemma_no_point(span, count - 1);
    assert(span.words.subrange(0, count) =~= span.words);
    english_numbers::lemma_numbers_are_natural(span.words);
    let value = english_numbers::ordinal_number(span.words)->0;
    numeric::law_numbers_read_as_their_value(value as nat);
    english_numbers::law_ordinal_endings(value);
    let before = text::decimal(value as nat);
    let ending = english_numbers::ordinal_ending(value);
    let written = before + ending;
    assert(written.take(written.len() - 2) =~= before);
    assert(written.skip(written.len() - 2) =~= ending);
}

/// A number reads as its value, unless it is one digit; digits alone read as those digits.
pub proof fn law_numbers_read_as_their_value(span: Span)
    requires
        span.words.len() > 0,
        english_numbers::cardinal_number(span.words) is Some,
        span.words.len() > 1 || english_numbers::cardinal_number(span.words)->0 >= 10,
    ensures
        grammar(span) is Some,
        ({
            let output = grammar(span)->0;
            let value = english_numbers::cardinal_number(span.words)->0;
            let digits = span.words.len() > 1 && forall|at: int|
                0 <= at < span.words.len() ==> english_numbers::digit_word(
                    #[trigger] span.words[at],
                ) is Some;
            &&& output.len() == 1
            &&& output[0].kind == WordKind::Number
            &&& !digits ==> numeric::reads(output[0].text, value)
            &&& digits ==> output[0].text.len() == span.words.len() && forall|at: int|
                0 <= at < span.words.len() ==> english_numbers::cardinal_word(
                    #[trigger] span.words[at],
                ) == Some(output[0].text[at] as int - 48)
        }),
{
    let count = span.words.len() as int;
    assert(span.words.subrange(0, count) =~= span.words);
    lemma_numbers_begin_no_other(span, count);
    english_numbers::lemma_words_of_numbers(span.words, count - 1);
    lemma_no_time(span);
    lemma_no_point(span, count);
    english_numbers::lemma_numbers_are_natural(span.words);
    let value = english_numbers::cardinal_number(span.words)->0;
    numeric::law_numbers_read_as_their_value(value as nat);
    assert forall|at: int| 0 <= at < count implies (english_numbers::digit_word(
        #[trigger] span.words[at],
    ) is Some ==> english_numbers::cardinal_word(span.words[at]) == Some(
        digits_text(span.words)[at] as int - 48,
    )) by {
        english_numbers::law_digit_words_are_small_numbers(span.words[at]);
    }
}

/// A date with a month that is written with a capital, a day in one word and a year reads as the
/// month, the day with its ending, and the year.
pub proof fn law_dates_read_as_month_day_and_year(span: Span)
    requires
        span.words.len() >= 4,
        english_numbers::month_word(span.words[0]),
        english_numbers::ordinal_word(span.words[1]) is Some,
        english_numbers::year_number(span.words.skip(2)) is Some,
        span.capital || full_year(english_numbers::year_number(span.words.skip(2))),
    ensures
        grammar(span) is Some,
        ({
            let output = grammar(span)->0;
            let day = english_numbers::ordinal_word(span.words[1])->0;
            let year = english_numbers::year_number(span.words.skip(2))->0;
            let month = seq![' '] + capitalized(span.words[0]);
            &&& span.capital ==> {
                let written = output[1].text;
                &&& output.len() == 4
                &&& output[0].text == month
                &&& written.len() > 3
                &&& written[0] == ' '
                &&& numeric::reads(written.subrange(1, written.len() - 2), day)
                &&& written.skip(written.len() - 2) == english_numbers::ordinal_ending(day)
                &&& output[2].text == ", "@
                &&& numeric::reads(output[3].text, year)
            }
            &&& !span.capital ==> {
                let written = output[0].text;
                &&& output.len() == 2
                &&& written.len() > month.len() + 1
                &&& written.take(month.len() as int + 1) == month.push(' ')
                &&& numeric::reads(written.skip(month.len() as int + 1), day)
                &&& output[1].text.len() > 1
                &&& output[1].text[0] == ' '
                &&& numeric::reads(output[1].text.skip(1), year)
            }
        }),
{
    let count = span.words.len() as int;
    assert(span.words.subrange(2, count) =~= span.words.skip(2));
    let days = span.words.subrange(1, 2);
    assert(days =~= seq![span.words[1]]);
    let day = english_numbers::ordinal_word(span.words[1])->0;
    let year = english_numbers::year_number(span.words.skip(2))->0;
    assert(call_rule(span) is None) by {
        english_numbers::lemma_months_apart(span.words[0]);
    }
    english_numbers::lemma_numbers_are_natural(span.words.skip(2));
    numeric::law_numbers_read_as_their_value(day as nat);
    numeric::law_numbers_read_as_their_value(year as nat);
    english_numbers::law_ordinal_endings(day);
    let numeral = text::decimal(day as nat);
    let ending = english_numbers::ordinal_ending(day);
    let month = seq![' '] + capitalized(span.words[0]);
    if span.capital {
        let written = spaced(numeral + ending);
        assert(written.subrange(1, written.len() - 2) =~= numeral);
        assert(written.skip(written.len() - 2) =~= ending);
    } else {
        let written = spaced(capitalized(span.words[0])) + spaced(numeral);
        assert(written.take(month.len() as int + 1) =~= month.push(' '));
        assert(written.skip(month.len() as int + 1) =~= numeral);
        assert(spaced(text::decimal(year as nat)).skip(1) =~= text::decimal(year as nat));
    }
}

/// A call reads as the word and the digits that are spoken behind it, one for each word.
pub proof fn law_calls_read_as_their_digits(span: Span)
    requires
        span.words.len() > 1,
        span.words[0] == "call"@,
        forall|at: int|
            1 <= at < span.words.len() ==> english_numbers::digit_word(
                #[trigger] span.words[at],
            ) is Some,
    ensures
        grammar(span) is Some,
        ({
            let output = grammar(span)->0;
            &&& output.len() == 2
            &&& output[0].text == " Call"@
            &&& output[1].text.len() == span.words.len()
            &&& output[1].text[0] == ' '
            &&& forall|at: int|
                1 <= at < span.words.len() ==> english_numbers::cardinal_word(
                    #[trigger] span.words[at],
                ) == Some(output[1].text[at] as int - 48)
        }),
{
    let digits = span.words.skip(1);
    assert forall|at: int| 0 <= at < digits.len() implies english_numbers::digit_word(
        #[trigger] digits[at],
    ) is Some by {
        assert(digits[at] == span.words[at + 1]);
    }
    assert forall|at: int| 1 <= at < span.words.len() implies english_numbers::cardinal_word(
        #[trigger] span.words[at],
    ) == Some(grammar(span)->0[1].text[at] as int - 48) by {
        english_numbers::law_digit_words_are_small_numbers(span.words[at]);
        assert(digits[at - 1] == span.words[at]);
    }
}

}
