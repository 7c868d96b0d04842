//! English spacing, grammar over spans, and spoken web addresses.

use vstd::prelude::*;

use crate::english_grammar;
use crate::english_grammar::{
    apply_english_grammar_span, are_letter_tokens, capitalize, token_source_ends,
};
use crate::punctuation;
use crate::text;
use crate::text::{
    are_ascii_letters, chars_of, count_leading_space, is_ascii_alphabetic, is_ascii_digit,
    is_ascii_lowercase, is_ascii_uppercase, is_cjk, matches_at, part, prepend, push_text, trimmed,
};
use crate::types;
use crate::types::{copy_strings, copy_words, Rendered, RenderedWord, WordKind};
use crate::words;

verus! {

/// One upper-case letter.
pub open spec fn initial(content: Seq<char>) -> bool {
    content.len() == 1 && is_ascii_uppercase(content[0])
}

/// The text of the last word, or nothing.
pub open spec fn last_text(output: Seq<Rendered>) -> Seq<char> {
    if output.len() == 0 {
        Seq::empty()
    } else {
        output.last().text
    }
}

/// An English word behind the given words. The first word gets a capital; a word is set apart by
/// a space unless it follows Chinese text or joins an initial to an initial.
pub open spec fn english_word(output: Seq<Rendered>, content: Seq<char>) -> Seq<char> {
    let before = text::trim(last_text(output));
    let word = if output.len() == 0 && is_ascii_lowercase(content[0]) {
        english_grammar::capitalized(content)
    } else {
        content
    };
    let follows_chinese = before.len() > 0 && is_cjk(before.last());
    if output.len() == 0 || (!follows_chinese && !(initial(word) && initial(before))) {
        english_grammar::spaced(word)
    } else {
        word
    }
}

/// Other text behind the given words. Text that begins with a letter gets a capital and one space
/// in first place; text that begins with a digit is set apart from an English word by one space.
pub open spec fn mixed_word(output: Seq<Rendered>, content: Seq<char>) -> Seq<char> {
    let stripped = text::trim_start(content);
    if text::trim(content).len() == 0 {
        content
    } else if output.len() == 0 && is_ascii_alphabetic(stripped[0]) {
        english_grammar::spaced(english_grammar::capitalized(stripped))
    } else if output.len() > 0 && is_ascii_digit(stripped[0]) && text::ascii_letters(
        text::trim(last_text(output)),
    ) {
        english_grammar::spaced(stripped)
    } else {
        content
    }
}

/// The word as it stands behind the given ones.
pub open spec fn formatted_word(output: Seq<Rendered>, word: Rendered) -> Rendered {
    Rendered {
        text: if text::ascii_letters(word.text) {
            english_word(output, word.text)
        } else {
            mixed_word(output, word.text)
        },
        ..word
    }
}

/// The first `count` words with English spacing.
pub open spec fn formatted(words: Seq<Rendered>, count: int) -> Seq<Rendered>
    decreases count,
{
    if count <= 0 {
        Seq::empty()
    } else {
        formatted(words, count - 1).push(
            formatted_word(formatted(words, count - 1), words[count - 1]),
        )
    }
}

/// Spacing keeps the number of words, their kinds and where they end in the source.
pub proof fn law_spacing_keeps_kinds_and_ends(words: Seq<Rendered>, count: int)
    requires
        0 <= count <= words.len(),
    ensures
        formatted(words, count).len() == count,
        forall|index: int|
            0 <= index < count ==> (#[trigger] formatted(words, count)[index]).kind
                == words[index].kind && formatted(words, count)[index].source_end
                == words[index].source_end,
    decreases count,
{
    if count > 0 {
        law_spacing_keeps_kinds_and_ends(words, count - 1);
        assert forall|index: int| 0 <= index < count implies (#[trigger] formatted(
            words,
            count,
        )[index]).kind == words[index].kind && formatted(words, count)[index].source_end
            == words[index].source_end by {
            if index < count - 1 {
                assert(formatted(words, count)[index] == formatted(words, count - 1)[index]);
            }
        }
    }
}

fn is_initial(content: &[char]) -> (result: bool)
    ensures
        result == initial(content@),
{
    content.len() == 1 && is_ascii_uppercase(content[0])
}

fn format_english(first: bool, before: &[char], content: Vec<char>) -> (result: Vec<char>)
    requires
        content@.len() > 0,
    ensures
        forall|output: Seq<Rendered>|
            first == (output.len() == 0) && before@ == text::trim(last_text(output)) ==> result@
                == #[trigger] english_word(output, content@),
{
    let word: Vec<char> = if first && is_ascii_lowercase(content[0]) {
        capitalize(&content)
    } else {
        content
    };
    let follows_chinese: bool = before.len() > 0 && is_cjk(before[before.len() - 1]);
    if first || (!follows_chinese && !(is_initial(&word) && is_initial(before))) {
        prepend(' ', &word)
    } else {
        word
    }
}

fn format_mixed(first: bool, before: &[char], content: Vec<char>) -> (result: Vec<char>)
    ensures
        forall|output: Seq<Rendered>|
            first == (output.len() == 0) && before@ == text::trim(last_text(output)) ==> result@
                == #[trigger] mixed_word(output, content@),
{
    if trimmed(&content).len() == 0 {
        return content;
    }
    let start: usize = count_leading_space(&content);
    let stripped: Vec<char> = part(&content, start, content.len());
    assert(stripped@ =~= text::trim_start(content@));
    assert(stripped@.len() > 0);
    if first && is_ascii_alphabetic(stripped[0]) {
        prepend(' ', &capitalize(&stripped))
    } else if !first && is_ascii_digit(stripped[0]) && are_ascii_letters(before) {
        prepend(' ', &stripped)
    } else {
        content
    }
}

/// Spaces English words.
pub fn format_english_words(words: &[RenderedWord]) -> (output: Vec<RenderedWord>)
    ensures
        types::rendered_views(output@) == formatted(
            types::rendered_views(words@),
            words@.len() as int,
        ),
{
    let ghost views = types::rendered_views(words@);
    let mut output: Vec<RenderedWord> = Vec::new();
    assert(types::rendered_views(output@) =~= Seq::empty());
    for index in 0..words.len()
        invariant
            views == types::rendered_views(words@),
            types::rendered_views(output@) == formatted(views, index as int),
    {
        let ghost done = types::rendered_views(output@);
        assert(output@.len() > 0 ==> done.last() == output@.last()@);
        let before: Vec<char> = if output.len() > 0 {
            trimmed(&chars_of(output[output.len() - 1].word.text.as_str()))
        } else {
            Vec::new()
        };
        proof {
            if output@.len() == 0 {
                assert(text::trim_start(Seq::<char>::empty()) =~= Seq::empty());
                assert(before@ =~= text::trim(last_text(done)));
            }
        }
        let content: Vec<char> = chars_of(words[index].word.text.as_str());
        let ghost source = content@;
        let rendered: Vec<char> = if are_ascii_letters(&content) {
            let result: Vec<char> = format_english(output.len() == 0, &before, content);
            assert(result@ == english_word(done, source));
            result
        } else {
            let result: Vec<char> = format_mixed(output.len() == 0, &before, content);
            assert(result@ == mixed_word(done, source));
            result
        };
        output.push(
            RenderedWord::from_chars(&rendered, words[index].word.kind, words[index].source_end),
        );
        assert(types::rendered_views(output@) =~= done.push(
            formatted_word(done, views[index as int]),
        ));
    }
    output
}

/// The words that end after `start` and up to `end`, counted from `start`.
pub open spec fn relative_words(words: Seq<Rendered>, start: int, end: int) -> Seq<Rendered>
    decreases words.len(),
{
    if words.len() == 0 {
        Seq::empty()
    } else {
        let before = relative_words(words.drop_last(), start, end);
        let word = words.last();
        if start < word.source_end <= end {
            before.push(Rendered { source_end: (word.source_end - start) as nat, ..word })
        } else {
            before
        }
    }
}

/// A text without one space in front.
pub open spec fn strip_space(content: Seq<char>) -> Seq<char> {
    if content.len() > 0 && content[0] == ' ' {
        content.skip(1)
    } else {
        content
    }
}

/// The words of a span counted from the start of the source; behind other words the first one
/// loses its space.
pub open spec fn placed_words(words: Seq<Rendered>, start: int, follows: bool) -> Seq<Rendered> {
    Seq::new(
        words.len(),
        |index: int|
            Rendered {
                text: if follows && index == 0 {
                    strip_space(words[index].text)
                } else {
                    words[index].text
                },
                source_end: (words[index].source_end + start) as nat,
                ..words[index]
            },
    )
}

/// A label that stands for a punctuation mark.
pub open spec fn mark_label(label: int) -> bool {
    1 <= label <= 4
}

/// A span ends with token `index`: a mark follows it, or it is the last one.
pub open spec fn span_ends(tokens: Seq<Seq<char>>, labels: Seq<usize>, index: int) -> bool {
    mark_label(punctuation::label_at(labels, words::token_end(tokens, index + 1) - 1)) || index + 1
        == tokens.len()
}

/// The output after the tokens from `index` on, where the open span began with token `start`.
pub open spec fn spans_from(
    tokens: Seq<Seq<char>>,
    words: Seq<Rendered>,
    labels: Seq<usize>,
    index: int,
    start: int,
    output: Seq<Rendered>,
) -> Seq<Rendered>
    decreases tokens.len() - index,
{
    if index >= tokens.len() {
        output
    } else if !span_ends(tokens, labels, index) {
        spans_from(tokens, words, labels, index + 1, start, output)
    } else {
        let source_start = words::token_end(tokens, start);
        let relative = relative_words(words, source_start, words::token_end(tokens, index + 1));
        let span = english_grammar::span_words(tokens.subrange(start, index + 1), relative);
        spans_from(
            tokens,
            words,
            labels,
            index + 1,
            index + 1,
            output + placed_words(span, source_start, output.len() > 0),
        )
    }
}

/// The words of English tokens, read span by span between punctuation marks.
pub open spec fn grammar_words(
    tokens: Seq<Seq<char>>,
    words: Seq<Rendered>,
    labels: Seq<usize>,
) -> Seq<Rendered> {
    if tokens.len() == 0 || !english_grammar::all_letter_tokens(tokens) {
        words
    } else {
        spans_from(tokens, words, labels, 0, 0, Seq::empty())
    }
}

proof fn lemma_relative_ends(words: Seq<Rendered>, start: int, end: int)
    requires
        0 <= start <= end,
    ensures
        english_grammar::ends_within(relative_words(words, start, end), (end - start) as nat),
    decreases words.len(),
{
    if words.len() > 0 {
        lemma_relative_ends(words.drop_last(), start, end);
    }
}

proof fn lemma_concat_between(tokens: Seq<Seq<char>>, start: int, end: int)
    requires
        0 <= start <= end <= tokens.len(),
    ensures
        types::concat(tokens.subrange(start, end)).len() == words::token_end(tokens, end)
            - words::token_end(tokens, start),
    decreases end - start,
{
    if start < end {
        lemma_concat_between(tokens, start, end - 1);
        words::lemma_token_end_step(tokens, end - 1);
        assert(tokens.subrange(start, end).drop_last() =~= tokens.subrange(start, end - 1));
    } else {
        assert(tokens.subrange(start, end).len() == 0);
    }
}

/// The words of a span end within it.
proof fn lemma_span_words_ends(tokens: Seq<Seq<char>>, words: Seq<Rendered>)
    requires
        english_grammar::ends_within(words, types::concat(tokens).len()),
    ensures
        english_grammar::ends_within(
            english_grammar::span_words(tokens, words),
            types::concat(tokens).len(),
        ),
{
    if tokens.len() > 0 && english_grammar::all_letter_tokens(tokens) {
        let span = english_grammar::span_of(tokens);
        assert forall|early: int, late: int| 0 <= early <= late < span.ends.len() implies
        #[trigger] span.ends[early] <= #[trigger] span.ends[late] by {
            words::lemma_token_end_grows(tokens, early + 1, late + 1);
        }
        english_grammar::law_grammar_stays_in_its_span(span);
        assert(tokens.take(tokens.len() as int) =~= tokens);
    }
}

/// Collects the words that end after `start` and up to `end`.
fn collect_relative(words: &[RenderedWord], start: usize, end: usize) -> (output: Vec<RenderedWord>)
    ensures
        types::rendered_views(output@) == relative_words(
            types::rendered_views(words@),
            start as int,
            end as int,
        ),
{
    let ghost views = types::rendered_views(words@);
    let mut output: Vec<RenderedWord> = Vec::new();
    assert(types::rendered_views(output@) =~= Seq::empty());
    for index in 0..words.len()
        invariant
            views == types::rendered_views(words@),
            types::rendered_views(output@) == relative_words(
                views.take(index as int),
                start as int,
                end as int,
            ),
    {
        let ghost before = types::rendered_views(output@);
        assert(views.take(index + 1).drop_last() =~= views.take(index as int));
        let word: &RenderedWord = &words[index];
        if start < word.source_end && word.source_end <= end {
            output.push(
                RenderedWord { word: word.word.clone(), source_end: word.source_end - start },
            );
            assert(types::rendered_views(output@) =~= before.push(
                Rendered { source_end: (word.source_end - start) as nat, ..word@ },
            ));
        }
    }
    assert(views.take(views.len() as int) =~= views);
    output
}

/// Appends the words of a span, counted from the start of the source.
fn place_words(output: &mut Vec<RenderedWord>, span: &[RenderedWord], start: usize)
    requires
        forall|index: int|
            0 <= index < span@.len() ==> (#[trigger] span@[index]).source_end + start <= usize::MAX,
    ensures
        types::rendered_views(final(output)@) == types::rendered_views(old(output)@)
            + placed_words(
            types::rendered_views(span@),
            start as int,
            old(output)@.len() > 0,
        ),
{
    let follows: bool = output.len() > 0;
    let ghost placed = placed_words(types::rendered_views(span@), start as int, follows);
    for index in 0..span.len()
        invariant
            forall|index: int|
                0 <= index < span@.len() ==> (#[trigger] span@[index]).source_end + start
                    <= usize::MAX,
            follows == (old(output)@.len() > 0),
            placed == placed_words(types::rendered_views(span@), start as int, follows),
            types::rendered_views(output@) == types::rendered_views(old(output)@) + placed.take(
                index as int,
            ),
    {
        let ghost before = types::rendered_views(output@);
        let mut content: Vec<char> = chars_of(span[index].word.text.as_str());
        if follows && index == 0 && content.len() > 0 && content[0] == ' ' {
            content = part(&content, 1, content.len());
        }
        assert(content@ =~= placed[index as int].text);
        output.push(
            RenderedWord::from_chars(&content, span[index].word.kind, span[index].source_end + start),
        );
        assert(types::rendered_views(output@) =~= before.push(placed[index as int]));
        assert(placed.take(index + 1) =~= placed.take(index as int).push(placed[index as int]));
    }
    assert(placed.take(span@.len() as int) =~= placed);
}

/// Reads English tokens span by span between punctuation marks.
pub fn apply_english_grammar(
    tokens: &[String],
    words: &[RenderedWord],
    labels: &[usize],
) -> (output: Vec<RenderedWord>)
    requires
        types::concat(types::text_views(tokens@)).len() <= usize::MAX,
    ensures
        types::rendered_views(output@) == grammar_words(
            types::text_views(tokens@),
            types::rendered_views(words@),
            labels@,
        ),
{
    if tokens.len() == 0 || !are_letter_tokens(tokens) {
        return copy_words(words);
    }
    let ghost views = types::text_views(tokens@);
    let ghost rendered = types::rendered_views(words@);
    let ends: Vec<usize> = token_source_ends(tokens);
    let mut output: Vec<RenderedWord> = Vec::new();
    let mut start: usize = 0;
    let mut source_start: usize = 0;
    assert(types::rendered_views(output@) =~= Seq::empty());
    assert(views.take(0) =~= Seq::empty());
    assert(views.take(views.len() as int) =~= views);
    for index in 0..tokens.len()
        invariant
            views == types::text_views(tokens@),
            rendered == types::rendered_views(words@),
            words::token_end(views, views.len() as int) <= usize::MAX,
            ends@.len() == views.len(),
            forall|at: int|
                0 <= at < views.len() ==> #[trigger] ends@[at] == words::token_end(views, at + 1),
            start <= index,
            source_start == words::token_end(views, start as int),
            spans_from(
                views,
                rendered,
                labels@,
                index as int,
                start as int,
                types::rendered_views(output@),
            ) == spans_from(views, rendered, labels@, 0, 0, Seq::empty()),
    {
        let source_end: usize = ends[index];
        let label: usize = if source_end > 0 && source_end - 1 < labels.len() {
            labels[source_end - 1]
        } else {
            0
        };
        if (1 <= label && label <= 4) || index + 1 == tokens.len() {
            let relative: Vec<RenderedWord> = collect_relative(words, source_start, source_end);
            let span_tokens: Vec<String> = copy_strings(tokens, start, index + 1);
            proof {
                lemma_concat_between(views, start as int, index + 1);
                words::lemma_token_end_grows(views, start as int, index + 1);
                words::lemma_token_end_grows(views, index + 1, views.len() as int);
                lemma_relative_ends(rendered, source_start as int, source_end as int);
                lemma_span_words_ends(
                    types::text_views(span_tokens@),
                    types::rendered_views(relative@),
                );
            }
            let span: Vec<RenderedWord> = apply_english_grammar_span(&span_tokens, &relative);
            proof {
                assert forall|at: int| 0 <= at < span@.len() implies (
                #[trigger] span@[at]).source_end + source_start <= usize::MAX by {
                    assert(types::rendered_views(span@)[at].source_end == span@[at].source_end);
                }
            }
            place_words(&mut output, &span, source_start);
            start = index + 1;
            source_start = source_end;
        }
    }
    output
}

/// The end of the run of single letters that is open at `index`.
pub open spec fn letter_run(tokens: Seq<Seq<char>>, index: int) -> int
    decreases tokens.len() - index,
{
    if index < tokens.len() && initial(tokens[index]) {
        letter_run(tokens, index + 1)
    } else {
        index
    }
}

/// Whether a spoken point follows token `index`.
pub open spec fn point_after(tokens: Seq<Seq<char>>, index: int) -> bool {
    exists|later: int| index < later < tokens.len() && #[trigger] tokens[later] == "点"@
}

/// Token `index` is the last spoken point, and letters follow it.
pub open spec fn domain_point(tokens: Seq<Seq<char>>, index: int) -> bool {
    tokens[index] == "点"@ && !point_after(tokens, index) && index + 1 < tokens.len()
        && text::ascii_letters(tokens[index + 1])
}

/// The words of an address from token `index` on: single letters run together, and the last
/// spoken point becomes a dot before the letters behind it.
pub open spec fn address_from(tokens: Seq<Seq<char>>, index: int) -> Seq<Rendered>
    decreases tokens.len() - index,
{
    if index < 0 || index >= tokens.len() {
        Seq::empty()
    } else if initial(tokens[index]) {
        let end = letter_run(tokens, index + 1);
        if end <= index || end > tokens.len() {
            Seq::empty()
        } else {
            seq![
                english_grammar::rendered(
                    types::concat(tokens.subrange(index, end)),
                    words::token_end(tokens, end) as nat,
                    WordKind::Text,
                ),
            ] + address_from(tokens, end)
        }
    } else if domain_point(tokens, index) {
        seq![
            english_grammar::rendered(
                seq!['.'] + tokens[index + 1],
                words::token_end(tokens, index + 2) as nat,
                WordKind::Text,
            ),
        ] + address_from(tokens, index + 2)
    } else {
        seq![
            english_grammar::rendered(
                tokens[index],
                words::token_end(tokens, index + 1) as nat,
                WordKind::Text,
            ),
        ] + address_from(tokens, index + 1)
    }
}

/// The tokens announce a web or mail address.
pub open spec fn announces_address(tokens: Seq<Seq<char>>) -> bool {
    tokens.len() > 0 && (text::occurs_at(tokens[0], "网址"@, 0) || text::occurs_at(
        tokens[0],
        "邮箱"@,
        0,
    ))
}

/// The words of a spoken address, or else the given ones.
pub open spec fn address_words(tokens: Seq<Seq<char>>, words: Seq<Rendered>) -> Seq<Rendered> {
    if announces_address(tokens) {
        seq![
            english_grammar::rendered(
                tokens[0],
                words::token_end(tokens, 1) as nat,
                WordKind::Text,
            ),
        ] + address_from(tokens, 1)
    } else {
        words
    }
}

fn is_letter_token(token: &str) -> (result: bool)
    ensures
        result == initial(token@),
{
    is_initial(&chars_of(token))
}

/// The tokens `from..to`, one after another.
fn concat_between(tokens: &[String], from: usize, to: usize) -> (content: Vec<char>)
    requires
        from <= to <= tokens@.len(),
    ensures
        content@ == types::concat(types::text_views(tokens@).subrange(from as int, to as int)),
{
    let ghost views = types::text_views(tokens@);
    let mut content: Vec<char> = Vec::new();
    for index in from..to
        invariant
            from <= to <= tokens@.len(),
            views == types::text_views(tokens@),
            content@ == types::concat(views.subrange(from as int, index as int)),
    {
        push_text(&mut content, tokens[index].as_str());
        assert(views.subrange(from as int, index + 1).drop_last() =~= views.subrange(
            from as int,
            index as int,
        ));
    }
    content
}

/// Decides whether a spoken point follows token `index`.
fn has_point_after(tokens: &[String], index: usize) -> (result: bool)
    requires
        index < tokens@.len(),
    ensures
        result == point_after(types::text_views(tokens@), index as int),
{
    let ghost views = types::text_views(tokens@);
    for later in index + 1..tokens.len()
        invariant
            index < tokens@.len(),
            views == types::text_views(tokens@),
            forall|earlier: int| index < earlier < later ==> #[trigger] views[earlier] != "点"@,
    {
        if tokens[later].as_str().eq("点") {
            assert(views[later as int] == "点"@);
            return true;
        }
    }
    false
}

/// Decides whether the tokens announce a web or mail address.
fn is_address(tokens: &[String]) -> (result: bool)
    ensures
        result == announces_address(types::text_views(tokens@)),
{
    if tokens.len() == 0 {
        return false;
    }
    let first: Vec<char> = chars_of(tokens[0].as_str());
    matches_at(&first, &chars_of("网址"), 0) || matches_at(&first, &chars_of("邮箱"), 0)
}

/// Renders a spoken web or mail address.
pub fn apply_spoken_web_semantics(
    tokens: &[String],
    words: &[RenderedWord],
) -> (output: Vec<RenderedWord>)
    requires
        types::concat(types::text_views(tokens@)).len() <= usize::MAX,
    ensures
        types::rendered_views(output@) == address_words(
            types::text_views(tokens@),
            types::rendered_views(words@),
        ),
{
    if !is_address(tokens) {
        return copy_words(words);
    }
    let ghost views = types::text_views(tokens@);
    let ghost whole = address_words(views, types::rendered_views(words@));
    let count: usize = tokens.len();
    let ends: Vec<usize> = token_source_ends(tokens);
    let mut output: Vec<RenderedWord> = Vec::new();
    output.push(RenderedWord::new(tokens[0].as_str(), WordKind::Text, ends[0]));
    let mut index: usize = 1;
    assert(types::rendered_views(output@) + address_from(views, 1) =~= whole);
    while index < count
        invariant
            1 <= index <= count,
            count == tokens@.len(),
            views == types::text_views(tokens@),
            ends@.len() == views.len(),
            forall|at: int|
                0 <= at < views.len() ==> #[trigger] ends@[at] == words::token_end(views, at + 1),
            types::rendered_views(output@) + address_from(views, index as int) == whole,
        decreases count - index,
    {
        let ghost before = types::rendered_views(output@);
        let mut end: usize = index + 1;
        if is_letter_token(tokens[index].as_str()) {
            while end < count && is_letter_token(tokens[end].as_str())
                invariant
                    index < end <= count,
                    count == tokens@.len(),
                    views == types::text_views(tokens@),
                    letter_run(views, index + 1) == letter_run(views, end as int),
                decreases count - end,
            {
                end = end + 1;
            }
            output.push(
                RenderedWord::from_chars(
                    &concat_between(tokens, index, end),
                    WordKind::Text,
                    ends[end - 1],
                ),
            );
        } else if tokens[index].as_str().eq("点") && index + 1 < count && are_ascii_letters(
            &chars_of(tokens[index + 1].as_str()),
        ) && !has_point_after(tokens, index) {
            output.push(
                RenderedWord::from_chars(
                    &prepend('.', &chars_of(tokens[index + 1].as_str())),
                    WordKind::Text,
                    ends[index + 1],
                ),
            );
            end = index + 2;
        } else {
            output.push(RenderedWord::new(tokens[index].as_str(), WordKind::Text, ends[index]));
        }
        assert(types::rendered_views(output@) + address_from(views, end as int) =~= before
            + address_from(views, index as int));
        index = end;
    }
    assert(types::rendered_views(output@) + address_from(views, index as int)
        =~= types::rendered_views(output@));
    output
}

/// Two texts differ in nothing but white space in front and the case of the first letter.
pub open spec fn same_word(left: Seq<char>, right: Seq<char>, capital: bool) -> bool {
    let one = text::trim_start(left);
    let other = text::trim_start(right);
    &&& one.len() == other.len()
    &&& forall|index: int| 0 < index < one.len() ==> one[index] == other[index]
    &&& one.len() > 0 ==> one[0] == other[0] || (capital && one[0] == text::upper(other[0]))
}

/// A space in front is left out when white space is.
proof fn lemma_trim_spaced(content: Seq<char>)
    ensures
        text::trim_start(english_grammar::spaced(content)) == text::trim_start(content),
        text::leading_space(content) <= content.len(),
{
    let all = english_grammar::spaced(content);
    assert(all[0] == ' ');
    assert(all.skip(1) =~= content);
    assert(text::is_whitespace(' '));
    lemma_leading_space(content);
    assert(text::leading_space(all) == 1 + text::leading_space(content));
    assert(text::trim_start(all) =~= text::trim_start(content));
}

proof fn lemma_leading_space(content: Seq<char>)
    ensures
        text::leading_space(content) <= content.len(),
        text::leading_space(content) < content.len() ==> !text::is_whitespace(
            content[text::leading_space(content) as int],
        ),
    decreases content.len(),
{
    if content.len() > 0 && text::is_whitespace(content[0]) {
        lemma_leading_space(content.skip(1));
    }
}

/// Text that begins with no white space is kept.
proof fn lemma_trim_word(content: Seq<char>)
    requires
        content.len() > 0 ==> !text::is_whitespace(content[0]),
    ensures
        text::trim_start(content) == content,
{
    assert(text::trim_start(content) =~= content);
}

/// Spacing changes nothing of a word but the white space in front of it; only the first word of all
/// may get a capital.
pub proof fn law_spacing_keeps_the_letters(words: Seq<Rendered>, index: int)
    requires
        0 <= index < words.len(),
    ensures
        same_word(
            formatted_word(formatted(words, index), words[index]).text,
            words[index].text,
            index == 0,
        ),
{
    let output = formatted(words, index);
    law_spacing_keeps_kinds_and_ends(words, index);
    let content = words[index].text;
    let after = formatted_word(output, words[index]).text;
    let stripped = text::trim_start(content);
    lemma_leading_space(content);
    if text::ascii_letters(content) {
        assert(content.len() > 0 ==> is_ascii_alphabetic(content[0]));
        lemma_trim_word(content);
        let word = if output.len() == 0 && is_ascii_lowercase(content[0]) {
            english_grammar::capitalized(content)
        } else {
            content
        };
        assert(word.len() > 0 ==> is_ascii_alphabetic(word[0]));
        lemma_trim_word(word);
        lemma_trim_spaced(word);
    } else {
        lemma_trim_word(stripped);
        lemma_trim_spaced(stripped);
        if text::trim(content).len() > 0 && output.len() == 0 && is_ascii_alphabetic(stripped[0]) {
            let word = english_grammar::capitalized(stripped);
            assert(is_ascii_alphabetic(word[0]));
            lemma_trim_word(word);
            lemma_trim_spaced(word);
        }
    }
}

/// The first word, where it is English, begins with a space and a capital.
pub proof fn law_english_text_begins_with_a_capital(words: Seq<Rendered>)
    requires
        words.len() > 0,
        words[0].text.len() > 0,
        text::ascii_letters(words[0].text),
    ensures
        ({
            let first = formatted(words, words.len() as int)[0].text;
            &&& first.len() == words[0].text.len() + 1
            &&& first[0] == ' '
            &&& is_ascii_uppercase(first[1])
            &&& first.skip(2) == words[0].text.skip(1)
        }),
{
    lemma_formatted_at(words, words.len() as int, 0);
    let content = words[0].text;
    assert(is_ascii_alphabetic(content[0]));
    let first = formatted(words, words.len() as int)[0].text;
    assert(formatted(words, 0).len() == 0);
    assert(first.skip(2) =~= content.skip(1));
}

proof fn lemma_formatted_at(words: Seq<Rendered>, count: int, index: int)
    requires
        0 <= index < count <= words.len(),
    ensures
        formatted(words, count).len() == count,
        formatted(words, count)[index] == formatted_word(formatted(words, index), words[index]),
    decreases count,
{
    law_spacing_keeps_kinds_and_ends(words, count);
    law_spacing_keeps_kinds_and_ends(words, count - 1);
    if index < count - 1 {
        lemma_formatted_at(words, count - 1, index);
    }
}

/// An English word is set apart by a space from whatever stands before it, but for Chinese text and
/// for an initial before another initial.
pub proof fn law_english_words_are_set_apart(words: Seq<Rendered>, index: int)
    requires
        0 < index < words.len(),
        words[index].text.len() > 0,
        text::ascii_letters(words[index].text),
    ensures
        ({
            let output = formatted(words, words.len() as int);
            let before = text::trim(output[index - 1].text);
            let apart = !(before.len() > 0 && is_cjk(before.last())) && !(initial(
                words[index].text,
            ) && initial(before));
            &&& apart ==> output[index].text == seq![' '] + words[index].text
            &&& !apart ==> output[index].text == words[index].text
        }),
{
    lemma_formatted_at(words, words.len() as int, index);
    lemma_formatted_at(words, words.len() as int, index - 1);
    law_spacing_keeps_kinds_and_ends(words, index);
    let earlier = formatted(words, index);
    lemma_formatted_at(words, index, index - 1);
    assert(last_text(earlier) == formatted(words, words.len() as int)[index - 1].text);
}

/// The tokens of an address with a dot in place of the last spoken point, where letters follow it.
pub open spec fn dotted(tokens: Seq<Seq<char>>) -> Seq<Seq<char>> {
    Seq::new(
        tokens.len(),
        |index: int|
            if domain_point(tokens, index) {
                seq!['.']
            } else {
                tokens[index]
            },
    )
}

proof fn lemma_concat_skip(texts: Seq<Seq<char>>, from: int, to: int)
    requires
        0 <= from <= to <= texts.len(),
    ensures
        types::concat(texts.skip(from)) == types::concat(texts.subrange(from, to))
            + types::concat(texts.skip(to)),
    decreases texts.len() - to,
{
    if to == texts.len() {
        assert(texts.skip(to) =~= Seq::empty());
        assert(texts.subrange(from, to) =~= texts.skip(from));
        assert(types::concat(texts.skip(from)) =~= types::concat(texts.subrange(from, to))
            + types::concat(texts.skip(to)));
    } else {
        lemma_concat_skip(texts.drop_last(), from, to);
        let shorter = texts.drop_last();
        assert(texts.skip(from).drop_last() =~= shorter.skip(from));
        assert(texts.skip(to).drop_last() =~= shorter.skip(to));
        assert(texts.subrange(from, to) =~= shorter.subrange(from, to));
        assert(types::concat(texts.skip(from)) =~= types::concat(texts.subrange(from, to))
            + types::concat(texts.skip(to)));
    }
}

proof fn lemma_letter_run(tokens: Seq<Seq<char>>, index: int)
    requires
        0 <= index <= tokens.len(),
    ensures
        index <= letter_run(tokens, index) <= tokens.len(),
        forall|at: int| index <= at < letter_run(tokens, index) ==> initial(#[trigger] tokens[at]),
        letter_run(tokens, index) < tokens.len() ==> !initial(tokens[letter_run(tokens, index)]),
    decreases tokens.len() - index,
{
    if index < tokens.len() && initial(tokens[index]) {
        lemma_letter_run(tokens, index + 1);
    }
}

proof fn lemma_joined_first(word: Rendered, rest: Seq<Rendered>)
    ensures
        types::joined(seq![word] + rest) == word.text + types::joined(rest),
{
    types::lemma_joined_split(seq![word], rest);
    assert(seq![word].drop_last() =~= Seq::empty());
    reveal_with_fuel(types::joined, 2);
    assert(types::joined(seq![word]) =~= word.text);
}

/// An address reads as its tokens do, but for a dot in place of the last spoken point before
/// letters: nothing is lost, nothing is put between them.
pub proof fn law_addresses_read_as_their_tokens(tokens: Seq<Seq<char>>, index: int)
    requires
        0 <= index <= tokens.len(),
        index > 0 ==> !domain_point(tokens, index - 1),
    ensures
        types::joined(address_from(tokens, index)) == types::concat(dotted(tokens).skip(index)),
    decreases tokens.len() - index,
{
    let written = dotted(tokens);
    if index < tokens.len() {
        reveal_strlit("点");
        assert("点"@[0] == '点');
        reveal_with_fuel(types::concat, 3);
        if initial(tokens[index]) {
            let end = letter_run(tokens, index + 1);
            lemma_letter_run(tokens, index + 1);
            assert forall|at: int| index <= at < end implies !domain_point(tokens, at) by {
                assert(initial(tokens[at]));
            }
            law_addresses_read_as_their_tokens(tokens, end);
            lemma_concat_skip(written, index, end);
            assert(written.subrange(index, end) =~= tokens.subrange(index, end));
            let word = english_grammar::rendered(
                types::concat(tokens.subrange(index, end)),
                words::token_end(tokens, end) as nat,
                WordKind::Text,
            );
            lemma_joined_first(word, address_from(tokens, end));
        } else if domain_point(tokens, index) {
            assert(!domain_point(tokens, index + 1)) by {
                if domain_point(tokens, index + 1) {
                    assert(point_after(tokens, index));
                }
            }
            law_addresses_read_as_their_tokens(tokens, index + 2);
            lemma_concat_skip(written, index, index + 2);
            let pair = written.subrange(index, index + 2);
            assert(pair.drop_last().drop_last() =~= Seq::empty());
            assert(pair.drop_last().last() == seq!['.']);
            assert(types::concat(pair.drop_last()) =~= seq!['.']);
            assert(types::concat(pair) =~= seq!['.'] + tokens[index + 1]);
            let word = english_grammar::rendered(
                seq!['.'] + tokens[index + 1],
                words::token_end(tokens, index + 2) as nat,
                WordKind::Text,
            );
            lemma_joined_first(word, address_from(tokens, index + 2));
        } else {
            law_addresses_read_as_their_tokens(tokens, index + 1);
            lemma_concat_skip(written, index, index + 1);
            let one = written.subrange(index, index + 1);
            assert(one.drop_last() =~= Seq::empty());
            assert(types::concat(one) =~= tokens[index]);
            let word = english_grammar::rendered(
                tokens[index],
                words::token_end(tokens, index + 1) as nat,
                WordKind::Text,
            );
            lemma_joined_first(word, address_from(tokens, index + 1));
        }
    } else {
        assert(written.skip(index) =~= Seq::empty());
    }
}

/// At most one point of an address becomes a dot: the last one.
pub proof fn law_only_the_last_point_is_a_dot(tokens: Seq<Seq<char>>, early: int, late: int)
    requires
        0 <= early < late < tokens.len(),
        tokens[late] == "点"@,
    ensures
        !domain_point(tokens, early),
{
    if domain_point(tokens, early) {
        assert(point_after(tokens, early));
    }
}

/// Spans are read from one mark to the next: the tokens up to the first one that a mark follows are
/// one span, whose grammar sees no other token, and the rest is read as if nothing came before.
pub proof fn law_spans_end_at_marks(
    tokens: Seq<Seq<char>>,
    words: Seq<Rendered>,
    labels: Seq<usize>,
    index: int,
    start: int,
    stop: int,
    output: Seq<Rendered>,
)
    requires
        0 <= start <= index <= stop < tokens.len(),
        forall|at: int|
            index <= at < stop ==> !(1 <= punctuation::label_at(
                labels,
                #[trigger] words::token_end(tokens, at + 1) - 1,
            ) <= 4),
        stop + 1 == tokens.len() || 1 <= punctuation::label_at(
            labels,
            words::token_end(tokens, stop + 1) - 1,
        ) <= 4,
    ensures
        ({
            let from = words::token_end(tokens, start);
            let span = english_grammar::span_words(
                tokens.subrange(start, stop + 1),
                relative_words(words, from, words::token_end(tokens, stop + 1)),
            );
            spans_from(tokens, words, labels, index, start, output) == spans_from(
                tokens,
                words,
                labels,
                stop + 1,
                stop + 1,
                output + placed_words(span, from, output.len() > 0),
            )
        }),
    decreases stop - index,
{
    if index < stop {
        assert(!span_ends(tokens, labels, index)) by {
            let end = words::token_end(tokens, index + 1);
            assert(!(1 <= punctuation::label_at(labels, end - 1) <= 4));
        }
        law_spans_end_at_marks(tokens, words, labels, index + 1, start, stop, output);
    } else {
        assert(span_ends(tokens, labels, index));
    }
}

}
