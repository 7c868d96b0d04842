//! Replacement pairs and phrases that number conversion leaves alone.

use vstd::prelude::*;

use crate::encoding;
use crate::encoding::{decode_text, TextError};
use crate::rank;
use crate::rank::stable_descending;
use crate::text;
use crate::text::{
    ascii_word_character, char_count, chars_of, find_mark, find_text, part, push_chars,
    same_chars, split_lines, string_of,
};
use crate::types;
use crate::types::{copy_words, joined_text, Rendered, RenderedWord, WordKind};

verus! {

/// Why a replacement cannot be carried out.
#[derive(Clone, Copy, Debug, PartialEq, Eq, Structural)]
pub enum ReplacementError {
    /// The range to replace is empty or reaches past the text.
    InvalidRange,
    /// The words' source positions do not leave room for the replacement.
    SourcePosition,
}

/// No ASCII word runs across the left edge of `source` at position `at` of `content`.
pub open spec fn left_edge(content: Seq<char>, source: Seq<char>, at: int) -> bool {
    source.len() == 0 || !ascii_word_character(source[0]) || at == 0 || !ascii_word_character(
        content[at - 1],
    )
}

/// No ASCII word runs across the right edge of `source` at position `at` of `content`.
pub open spec fn right_edge(content: Seq<char>, source: Seq<char>, at: int) -> bool {
    source.len() == 0 || !ascii_word_character(source.last()) || at + source.len() == content.len()
        || !ascii_word_character(content[at + source.len()])
}

/// `source` stands at `at` in `content` without cutting an ASCII word.
pub open spec fn source_at(content: Seq<char>, source: Seq<char>, at: int) -> bool {
    text::occurs_at(content, source, at) && left_edge(content, source, at) && right_edge(
        content,
        source,
        at,
    )
}

/// The first position from `start` on where `source` stands without cutting an ASCII word.
pub open spec fn next_source(content: Seq<char>, source: Seq<char>, start: int) -> Option<int>
    decreases content.len() + 1 - start,
{
    if start < 0 || start + source.len() > content.len() {
        None
    } else if source_at(content, source, start) {
        Some(start)
    } else {
        next_source(content, source, start + 1)
    }
}

/// Where the text of word `index` begins in the joined text.
pub open spec fn word_start(words: Seq<Rendered>, index: int) -> int {
    types::joined(words.take(index)).len() as int
}

/// The first word from `index` on whose text ends after position `start` of the joined text.
pub open spec fn first_word(words: Seq<Rendered>, start: int, index: int) -> int
    decreases words.len() - index,
{
    if index >= words.len() || word_start(words, index + 1) > start {
        index
    } else {
        first_word(words, start, index + 1)
    }
}

/// The last word up to `index` whose text begins before position `end` of the joined text.
pub open spec fn last_word(words: Seq<Rendered>, end: int, index: int) -> int
    decreases index,
{
    if index <= 0 || word_start(words, index) < end {
        index
    } else {
        last_word(words, end, index - 1)
    }
}

/// The word sequence that holds `word`, or none where its text is empty.
pub open spec fn nonempty(word: Rendered) -> Seq<Rendered> {
    if word.text.len() == 0 {
        Seq::empty()
    } else {
        seq![word]
    }
}

/// The words after the range `start..end` of the joined text became `target`.
///
/// The first and the last word that the range touches keep what they hold outside of it.
pub open spec fn replaced_once(
    words: Seq<Rendered>,
    start: int,
    end: int,
    target: Seq<char>,
) -> Result<Seq<Rendered>, ReplacementError> {
    if start >= end || end > types::joined(words).len() {
        Err(ReplacementError::InvalidRange)
    } else {
        let first = first_word(words, start, 0);
        let last = last_word(words, end, words.len() - 1);
        let prefix = words[first].text.take(start - word_start(words, first));
        let suffix = words[last].text.skip(end - word_start(words, last));
        let source_begin = if first == 0 {
            0
        } else {
            words[first - 1].source_end
        };
        let prefix_end = source_begin + prefix.len();
        let target_end = words[last].source_end - suffix.len();
        if prefix_end > usize::MAX || target_end < 0 {
            Err(ReplacementError::SourcePosition)
        } else {
            Ok(
                words.take(first) + nonempty(
                    Rendered { text: prefix, kind: words[first].kind, source_end: prefix_end },
                ) + nonempty(
                    Rendered {
                        text: target,
                        kind: WordKind::Text,
                        source_end: if target_end > prefix_end {
                            target_end as nat
                        } else {
                            prefix_end
                        },
                    },
                ) + nonempty(
                    Rendered {
                        text: suffix,
                        kind: words[last].kind,
                        source_end: words[last].source_end,
                    },
                ) + words.skip(last + 1),
            )
        }
    }
}

proof fn lemma_word_start_step(words: Seq<Rendered>, index: int)
    requires
        0 <= index < words.len(),
    ensures
        word_start(words, index + 1) == word_start(words, index) + words[index].text.len(),
        types::joined(words.take(index + 1)) == types::joined(words.take(index)) + words[index].text,
{
    assert(words.take(index + 1).drop_last() =~= words.take(index));
}

proof fn lemma_word_start_order(words: Seq<Rendered>, low: int, high: int)
    requires
        0 <= low <= high <= words.len(),
    ensures
        word_start(words, low) <= word_start(words, high),
    decreases high - low,
{
    if low < high {
        lemma_word_start_step(words, high - 1);
        lemma_word_start_order(words, low, high - 1);
    }
}

/// The first word that a range touches lies in the words, and the range starts in it.
proof fn lemma_first_word(words: Seq<Rendered>, start: int, index: int)
    requires
        0 <= index < words.len(),
        word_start(words, index) <= start < types::joined(words).len(),
    ensures
        index <= first_word(words, start, index) < words.len(),
        word_start(words, first_word(words, start, index)) <= start,
        start < word_start(words, first_word(words, start, index) + 1),
    decreases words.len() - index,
{
    assert(words.take(words.len() as int) =~= words);
    if word_start(words, index + 1) <= start {
        lemma_first_word(words, start, index + 1);
    }
}

/// The last word that a range touches lies in the words, and the range ends in it.
proof fn lemma_last_word(words: Seq<Rendered>, end: int, index: int)
    requires
        0 <= index < words.len(),
        0 < end <= word_start(words, index + 1),
    ensures
        0 <= last_word(words, end, index) <= index,
        word_start(words, last_word(words, end, index)) < end,
        end <= word_start(words, last_word(words, end, index) + 1),
    decreases index,
{
    assert(words.take(0).len() == 0);
    if index > 0 && word_start(words, index) >= end {
        lemma_last_word(words, end, index - 1);
    }
}

/// The words that a range touches, as positions in the joined text.
proof fn lemma_touched(words: Seq<Rendered>, start: int, end: int)
    requires
        0 <= start < end <= types::joined(words).len(),
    ensures
        ({
            let first = first_word(words, start, 0);
            let last = last_word(words, end, words.len() - 1);
            &&& 0 <= first <= last < words.len()
            &&& word_start(words, first) <= start < word_start(words, first + 1)
            &&& word_start(words, last) < end <= word_start(words, last + 1)
        }),
{
    assert(words.take(words.len() as int) =~= words);
    assert(words.take(0).len() == 0);
    lemma_first_word(words, start, 0);
    lemma_last_word(words, end, words.len() - 1);
    let first = first_word(words, start, 0);
    let last = last_word(words, end, words.len() - 1);
    if last < first {
        lemma_word_start_order(words, last + 1, first);
    }
}

proof fn lemma_joined_nonempty(word: Rendered)
    ensures
        types::joined(nonempty(word)) == word.text,
{
    if word.text.len() == 0 {
        assert(nonempty(word).len() == 0);
        assert(word.text =~= Seq::empty());
    } else {
        reveal_with_fuel(types::joined, 2);
        assert(types::joined(nonempty(word)) =~= word.text);
    }
}

/// The joined text up to a position inside word `index`.
proof fn lemma_text_before(words: Seq<Rendered>, index: int, start: int)
    requires
        0 <= index < words.len(),
        word_start(words, index) <= start <= word_start(words, index + 1),
    ensures
        types::joined(words).take(start) == types::joined(words.take(index)) + words[index].text.take(
            start - word_start(words, index),
        ),
{
    lemma_word_start_step(words, index);
    types::lemma_joined_split(words.take(index + 1), words.skip(index + 1));
    assert(words.take(index + 1) + words.skip(index + 1) =~= words);
    assert(types::joined(words).take(start) =~= types::joined(words.take(index))
        + words[index].text.take(start - word_start(words, index)));
}

/// The joined text from a position inside word `index` on.
proof fn lemma_text_after(words: Seq<Rendered>, index: int, end: int)
    requires
        0 <= index < words.len(),
        word_start(words, index) <= end <= word_start(words, index + 1),
    ensures
        types::joined(words).skip(end) == words[index].text.skip(end - word_start(words, index))
            + types::joined(words.skip(index + 1)),
{
    lemma_word_start_step(words, index);
    types::lemma_joined_split(words.take(index + 1), words.skip(index + 1));
    assert(words.take(index + 1) + words.skip(index + 1) =~= words);
    assert(types::joined(words).skip(end) =~= words[index].text.skip(
        end - word_start(words, index),
    ) + types::joined(words.skip(index + 1)));
}

proof fn lemma_joined_five(
    head: Seq<Rendered>,
    prefix: Rendered,
    target: Rendered,
    suffix: Rendered,
    tail: Seq<Rendered>,
)
    ensures
        types::joined(head + nonempty(prefix) + nonempty(target) + nonempty(suffix) + tail)
            == types::joined(head) + prefix.text + target.text + suffix.text + types::joined(tail),
{
    lemma_joined_nonempty(prefix);
    lemma_joined_nonempty(target);
    lemma_joined_nonempty(suffix);
    types::lemma_joined_split(head, nonempty(prefix));
    types::lemma_joined_split(head + nonempty(prefix), nonempty(target));
    types::lemma_joined_split(head + nonempty(prefix) + nonempty(target), nonempty(suffix));
    types::lemma_joined_split(
        head + nonempty(prefix) + nonempty(target) + nonempty(suffix),
        tail,
    );
}

/// Replacing a range in the words replaces it in their joined text.
pub proof fn law_replacement_rewrites_text(
    words: Seq<Rendered>,
    start: int,
    end: int,
    target: Seq<char>,
)
    requires
        0 <= start,
        replaced_once(words, start, end, target) is Ok,
    ensures
        types::joined(replaced_once(words, start, end, target)->Ok_0) == types::joined(words).take(
            start,
        ) + target + types::joined(words).skip(end),
{
    let first = first_word(words, start, 0);
    let last = last_word(words, end, words.len() - 1);
    lemma_touched(words, start, end);
    lemma_text_before(words, first, start);
    lemma_text_after(words, last, end);
    let prefix = words[first].text.take(start - word_start(words, first));
    let suffix = words[last].text.skip(end - word_start(words, last));
    let prefix_end = (if first == 0 {
        0
    } else {
        words[first - 1].source_end
    }) + prefix.len();
    let target_end = words[last].source_end - suffix.len();
    let target_word = Rendered {
        text: target,
        kind: WordKind::Text,
        source_end: if target_end > prefix_end {
            target_end as nat
        } else {
            prefix_end
        },
    };
    lemma_joined_five(
        words.take(first),
        Rendered { text: prefix, kind: words[first].kind, source_end: prefix_end },
        target_word,
        Rendered { text: suffix, kind: words[last].kind, source_end: words[last].source_end },
        words.skip(last + 1),
    );
    assert(types::joined(words.take(first)) + prefix + target + suffix + types::joined(
        words.skip(last + 1),
    ) =~= types::joined(words).take(start) + target + types::joined(words).skip(end));
}

proof fn lemma_next_source_skips(content: Seq<char>, source: Seq<char>, start: int, at: int)
    requires
        0 <= start <= at,
        forall|other: int| start <= other < at ==> !source_at(content, source, other),
    ensures
        next_source(content, source, start) == next_source(content, source, at),
    decreases at - start,
{
    if start < at {
        if start + source.len() <= content.len() {
            assert(!source_at(content, source, start));
            lemma_next_source_skips(content, source, start + 1, at);
        }
    }
}

proof fn lemma_next_source_found(content: Seq<char>, source: Seq<char>, start: int)
    requires
        0 <= start,
    ensures
        match next_source(content, source, start) {
            Some(at) => start <= at && source_at(content, source, at),
            None => true,
        },
    decreases content.len() + 1 - start,
{
    if start + source.len() <= content.len() && !source_at(content, source, start) {
        lemma_next_source_found(content, source, start + 1);
    }
}

/// Finds where `source` stands next without cutting an ASCII word.
pub fn find_source(content: &[char], source: &[char], start: usize) -> (found: Option<usize>)
    ensures
        match found {
            Some(at) => next_source(content@, source@, start as int) == Some(at as int),
            None => next_source(content@, source@, start as int) is None,
        },
{
    let mut cursor: usize = start;
    while cursor <= content.len()
        invariant
            start <= cursor,
            next_source(content@, source@, start as int) == next_source(
                content@,
                source@,
                cursor as int,
            ),
        decreases content.len() + 1 - cursor,
    {
        let found: usize = match find_text(content, source, cursor) {
            Some(found) => found,
            None => {
                proof {
                    lemma_next_source_found(content@, source@, cursor as int);
                }
                return None;
            },
        };
        proof {
            lemma_next_source_skips(content@, source@, cursor as int, found as int);
        }
        let end: usize = found + source.len();
        let left_ok: bool = source.len() == 0 || !ascii_word_character(source[0]) || found == 0
            || !ascii_word_character(content[found - 1]);
        let right_ok: bool = source.len() == 0 || !ascii_word_character(source[source.len() - 1])
            || end == content.len() || !ascii_word_character(content[end]);
        if left_ok && right_ok {
            return Some(found);
        }
        cursor = found + 1;
    }
    None
}

/// Replaces the range `start..end` of the joined text by `target`.
pub fn replace_once(
    words: &[RenderedWord],
    start: usize,
    end: usize,
    target: &[char],
) -> (result: Result<Vec<RenderedWord>, ReplacementError>)
    ensures
        words_result(result) == replaced_once(
            types::rendered_views(words@),
            start as int,
            end as int,
            target@,
        ),
{
    let ghost views = types::rendered_views(words@);
    if start >= end || end > joined_text(words).len() {
        return Err(ReplacementError::InvalidRange);
    }
    proof {
        lemma_touched(views, start as int, end as int);
        assert(views.take(views.len() as int) =~= views);
    }
    let ghost first_view = first_word(views, start as int, 0);
    let ghost last_view = last_word(views, end as int, views.len() - 1);
    // where each word's text begins, and where the last one ends
    let mut offsets: Vec<usize> = Vec::new();
    let mut cursor: usize = 0;
    offsets.push(0);
    assert(views.take(0).len() == 0);
    for index in 0..words.len()
        invariant
            views == types::rendered_views(words@),
            types::joined(views).len() <= usize::MAX,
            offsets.len() == index + 1,
            cursor == word_start(views, index as int),
            forall|earlier: int|
                0 <= earlier <= index ==> #[trigger] offsets[earlier] == word_start(views, earlier),
    {
        proof {
            lemma_word_start_step(views, index as int);
            lemma_word_start_order(views, index + 1, views.len() as int);
            assert(views.take(views.len() as int) =~= views);
        }
        cursor = cursor + char_count(words[index].word.text.as_str());
        offsets.push(cursor);
    }
    let mut first_index: usize = 0;
    while offsets[first_index + 1] <= start
        invariant
            first_index <= first_view < views.len(),
            first_view == first_word(views, start as int, first_index as int),
            word_start(views, first_index as int) <= start < types::joined(views).len(),
            offsets.len() == views.len() + 1,
            forall|earlier: int|
                0 <= earlier <= views.len() ==> #[trigger] offsets[earlier] == word_start(
                    views,
                    earlier,
                ),
        decreases first_view - first_index,
    {
        proof {
            assert(views.take(views.len() as int) =~= views);
            lemma_first_word(views, start as int, first_index + 1);
        }
        first_index = first_index + 1;
    }
    let mut last_index: usize = words.len() - 1;
    while last_index > 0 && offsets[last_index] >= end
        invariant
            0 <= last_view <= last_index < views.len(),
            last_view == last_word(views, end as int, last_index as int),
            0 < end <= word_start(views, last_index + 1),
            offsets.len() == views.len() + 1,
            forall|earlier: int|
                0 <= earlier <= views.len() ==> #[trigger] offsets[earlier] == word_start(
                    views,
                    earlier,
                ),
        decreases last_index,
    {
        proof {
            lemma_last_word(views, end as int, last_index - 1);
        }
        last_index = last_index - 1;
    }
    let first_text: Vec<char> = chars_of(words[first_index].word.text.as_str());
    let last_text: Vec<char> = chars_of(words[last_index].word.text.as_str());
    proof {
        lemma_word_start_step(views, first_index as int);
        lemma_word_start_step(views, last_index as int);
    }
    let prefix: Vec<char> = part(&first_text, 0, start - offsets[first_index]);
    let suffix: Vec<char> = part(&last_text, end - offsets[last_index], last_text.len());
    assert(prefix@ =~= views[first_view].text.take(start - word_start(views, first_view)));
    assert(suffix@ =~= views[last_view].text.skip(end - word_start(views, last_view)));
    let source_begin: usize = if first_index == 0 {
        0
    } else {
        words[first_index - 1].source_end
    };
    if prefix.len() > usize::MAX - source_begin {
        return Err(ReplacementError::SourcePosition);
    }
    let prefix_end: usize = source_begin + prefix.len();
    if words[last_index].source_end < suffix.len() {
        return Err(ReplacementError::SourcePosition);
    }
    let target_end: usize = words[last_index].source_end - suffix.len();
    let replacement_end: usize = if target_end > prefix_end {
        target_end
    } else {
        prefix_end
    };
    let mut output: Vec<RenderedWord> = Vec::new();
    push_words(&mut output, words, 0, first_index);
    push_nonempty(&mut output, &prefix, words[first_index].word.kind, prefix_end);
    push_nonempty(&mut output, target, WordKind::Text, replacement_end);
    push_nonempty(
        &mut output,
        &suffix,
        words[last_index].word.kind,
        words[last_index].source_end,
    );
    push_words(&mut output, words, last_index + 1, words.len());
    assert(types::rendered_views(output@) =~= replaced_once(
        views,
        start as int,
        end as int,
        target@,
    )->Ok_0);
    Ok(output)
}

/// The view of the outcome of a replacement.
pub open spec fn words_result(result: Result<Vec<RenderedWord>, ReplacementError>) -> Result<
    Seq<Rendered>,
    ReplacementError,
> {
    match result {
        Ok(words) => Ok(types::rendered_views(words@)),
        Err(error) => Err(error),
    }
}

/// Appends copies of `words[from..to]`.
pub fn push_words(output: &mut Vec<RenderedWord>, words: &[RenderedWord], from: usize, to: usize)
    requires
        from <= to <= words.len(),
    ensures
        types::rendered_views(final(output)@) == types::rendered_views(old(output)@)
            + types::rendered_views(words@).subrange(from as int, to as int),
{
    for index in from..to
        invariant
            from <= to <= words.len(),
            types::rendered_views(output@) == types::rendered_views(old(output)@)
                + types::rendered_views(words@).subrange(from as int, index as int),
    {
        let ghost before = output@;
        output.push(words[index].clone());
        assert(types::rendered_views(output@) =~= types::rendered_views(before).push(
            words[index as int]@,
        ));
        assert(types::rendered_views(words@).subrange(from as int, index + 1)
            =~= types::rendered_views(words@).subrange(from as int, index as int).push(
            words[index as int]@,
        ));
    }
}

/// Appends a word with the given text, unless the text is empty.
fn push_nonempty(
    output: &mut Vec<RenderedWord>,
    content: &[char],
    kind: WordKind,
    source_end: usize,
)
    ensures
        types::rendered_views(final(output)@) == types::rendered_views(old(output)@) + nonempty(
            Rendered { text: content@, kind, source_end: source_end as nat },
        ),
{
    if content.len() > 0 {
        output.push(RenderedWord::from_chars(content, kind, source_end));
    }
    assert(types::rendered_views(output@) =~= types::rendered_views(old(output)@) + nonempty(
        Rendered { text: content@, kind, source_end: source_end as nat },
    ));
}

/// The words after every place of `source` from position `from` on became `target`, from left to
/// right; text that a replacement put in is not searched again.
pub open spec fn replaced_from(
    words: Seq<Rendered>,
    source: Seq<char>,
    target: Seq<char>,
    from: int,
) -> Result<Seq<Rendered>, ReplacementError>
    decreases types::joined(words).len() - from,
{
    match next_source(types::joined(words), source, from) {
        None => Ok(words),
        Some(at) => match replaced_once(words, at, at + source.len(), target) {
            Err(error) => Err(error),
            Ok(next) => {
                proof {
                    lemma_replacement_progress(words, source, target, from);
                }
                replaced_from(next, source, target, at + target.len())
            },
        },
    }
}

/// A replacement leaves less text to search.
pub proof fn lemma_replacement_progress(
    words: Seq<Rendered>,
    source: Seq<char>,
    target: Seq<char>,
    from: int,
)
    ensures
        match next_source(types::joined(words), source, from) {
            None => true,
            Some(at) => match replaced_once(words, at, at + source.len(), target) {
                Err(_) => true,
                Ok(next) => {
                    &&& 0 <= from <= at
                    &&& source.len() > 0
                    &&& types::joined(next) == types::joined(words).take(at) + target
                        + types::joined(words).skip(at + source.len())
                    &&& 0 <= types::joined(next).len() - (at + target.len())
                    &&& types::joined(next).len() - (at + target.len()) < types::joined(words).len()
                        - from
                },
            },
        },
{
    match next_source(types::joined(words), source, from) {
        None => {},
        Some(at) => {
            lemma_next_source_found(types::joined(words), source, from);
            if replaced_once(words, at, at + source.len(), target) is Ok {
                law_replacement_rewrites_text(words, at, at + source.len(), target);
            }
        },
    }
}

/// The views of replacement pairs.
pub open spec fn pair_views(pairs: Seq<(String, String)>) -> Seq<(Seq<char>, Seq<char>)> {
    Seq::new(pairs.len(), |index: int| (pairs[index].0@, pairs[index].1@))
}

/// The words after all replacements, each applied to what the earlier ones left.
pub open spec fn replaced(words: Seq<Rendered>, pairs: Seq<(Seq<char>, Seq<char>)>) -> Result<
    Seq<Rendered>,
    ReplacementError,
>
    decreases pairs.len(),
{
    if pairs.len() == 0 {
        Ok(words)
    } else {
        match replaced(words, pairs.drop_last()) {
            Err(error) => Err(error),
            Ok(before) => replaced_from(before, pairs.last().0, pairs.last().1, 0),
        }
    }
}

/// A text after every place of `source` from position `from` on became `target`.
pub open spec fn rewritten_from(
    content: Seq<char>,
    source: Seq<char>,
    target: Seq<char>,
    from: int,
) -> Seq<char>
    decreases content.len() - from,
{
    match next_source(content, source, from) {
        None => content,
        Some(at) => if source.len() == 0 || at < from || at + source.len() > content.len() {
            content
        } else {
            rewritten_from(
                content.take(at) + target + content.skip(at + source.len()),
                source,
                target,
                at + target.len(),
            )
        },
    }
}

/// A text after all replacements.
pub open spec fn rewritten(content: Seq<char>, pairs: Seq<(Seq<char>, Seq<char>)>) -> Seq<char>
    decreases pairs.len(),
{
    if pairs.len() == 0 {
        content
    } else {
        rewritten_from(rewritten(content, pairs.drop_last()), pairs.last().0, pairs.last().1, 0)
    }
}

/// Replacing one source in the words rewrites their joined text.
pub proof fn law_replacing_a_source_rewrites_text(
    words: Seq<Rendered>,
    source: Seq<char>,
    target: Seq<char>,
    from: int,
)
    requires
        replaced_from(words, source, target, from) is Ok,
    ensures
        types::joined(replaced_from(words, source, target, from)->Ok_0) == rewritten_from(
            types::joined(words),
            source,
            target,
            from,
        ),
    decreases types::joined(words).len() - from,
{
    lemma_replacement_progress(words, source, target, from);
    match next_source(types::joined(words), source, from) {
        None => {},
        Some(at) => {
            let next = replaced_once(words, at, at + source.len(), target)->Ok_0;
            law_replacing_a_source_rewrites_text(next, source, target, at + target.len());
        },
    }
}

/// The joined text after all replacements depends on the joined text before them alone, not on
/// how it was divided into words.
pub proof fn law_replacements_rewrite_text(
    words: Seq<Rendered>,
    pairs: Seq<(Seq<char>, Seq<char>)>,
)
    requires
        replaced(words, pairs) is Ok,
    ensures
        types::joined(replaced(words, pairs)->Ok_0) == rewritten(types::joined(words), pairs),
    decreases pairs.len(),
{
    if pairs.len() > 0 {
        law_replacements_rewrite_text(words, pairs.drop_last());
        law_replacing_a_source_rewrites_text(
            replaced(words, pairs.drop_last())->Ok_0,
            pairs.last().0,
            pairs.last().1,
            0,
        );
    }
}

/// Replaces every place of `source` by `target`.
fn replace_source(
    words: Vec<RenderedWord>,
    source: &[char],
    target: &[char],
) -> (result: Result<Vec<RenderedWord>, ReplacementError>)
    ensures
        words_result(result) == replaced_from(types::rendered_views(words@), source@, target@, 0),
{
    let mut output: Vec<RenderedWord> = words;
    let mut content: Vec<char> = joined_text(&output);
    let mut search_start: usize = 0;
    loop
        invariant
            content@ == types::joined(types::rendered_views(output@)),
            replaced_from(types::rendered_views(words@), source@, target@, 0) == replaced_from(
                types::rendered_views(output@),
                source@,
                target@,
                search_start as int,
            ),
        ensures
            replaced_from(types::rendered_views(words@), source@, target@, 0) == Ok::<
                Seq<Rendered>,
                ReplacementError,
            >(types::rendered_views(output@)),
        decreases content@.len() - search_start,
    {
        let start: usize = match find_source(&content, source, search_start) {
            Some(start) => start,
            None => {
                break;
            },
        };
        proof {
            lemma_next_source_found(content@, source@, search_start as int);
            lemma_replacement_progress(
                types::rendered_views(output@),
                source@,
                target@,
                search_start as int,
            );
        }
        let end: usize = start + source.len();
        output = match replace_once(&output, start, end, target) {
            Ok(next) => next,
            Err(error) => {
                return Err(error);
            },
        };
        let mut rewritten_content: Vec<char> = part(&content, 0, start);
        push_chars(&mut rewritten_content, target);
        let next_start: usize = rewritten_content.len();
        push_chars(&mut rewritten_content, &part(&content, end, content.len()));
        assert(rewritten_content@ =~= content@.take(start as int) + target@ + content@.skip(
            end as int,
        ));
        content = rewritten_content;
        search_start = next_start;
    }
    Ok(output)
}

/// Replacement pairs, applied in order.
#[derive(Debug)]
pub struct ReplacementTable {
    replacements: Vec<(String, String)>,
}

impl ReplacementTable {
    /// The pairs of source and target.
    pub closed spec fn pairs(self) -> Seq<(Seq<char>, Seq<char>)> {
        pair_views(self.replacements@)
    }

    /// A table of the given pairs.
    pub fn from_pairs(replacements: &[(&str, &str)]) -> (table: Self)
        ensures
            table.pairs().len() == replacements@.len(),
            forall|index: int|
                0 <= index < replacements@.len() ==> #[trigger] table.pairs()[index] == (
                    replacements@[index].0@,
                    replacements@[index].1@,
                ),
    {
        let mut pairs: Vec<(String, String)> = Vec::new();
        for index in 0..replacements.len()
            invariant
                pairs.len() == index,
                forall|earlier: int|
                    0 <= earlier < index ==> (#[trigger] pairs[earlier]).0@
                        == replacements@[earlier].0@ && pairs[earlier].1@
                        == replacements@[earlier].1@,
        {
            pairs.push((replacements[index].0.to_owned(), replacements[index].1.to_owned()));
        }
        ReplacementTable { replacements: pairs }
    }

    /// Applies every pair to the words.
    pub fn apply_words(&self, words: &[RenderedWord]) -> (result: Result<
        Vec<RenderedWord>,
        ReplacementError,
    >)
        ensures
            words_result(result) == replaced(types::rendered_views(words@), self.pairs()),
    {
        let mut output: Vec<RenderedWord> = copy_words(words);
        let ghost pairs = self.pairs();
        for index in 0..self.replacements.len()
            invariant
                pairs == pair_views(self.replacements@),
                replaced(types::rendered_views(words@), pairs.take(index as int)) == Ok::<
                    Seq<Rendered>,
                    ReplacementError,
                >(types::rendered_views(output@)),
        {
            let source: Vec<char> = chars_of(self.replacements[index].0.as_str());
            let target: Vec<char> = chars_of(self.replacements[index].1.as_str());
            assert(pairs.take(index + 1).drop_last() =~= pairs.take(index as int));
            output = match replace_source(output, &source, &target) {
                Ok(next) => next,
                Err(error) => {
                    proof {
                        lemma_replacement_error(
                            types::rendered_views(words@),
                            pairs,
                            index + 1,
                            error,
                        );
                    }
                    return Err(error);
                },
            };
        }
        assert(pairs.take(pairs.len() as int) =~= pairs);
        Ok(output)
    }
}

/// An error of a pair is the error of the whole table.
proof fn lemma_replacement_error(
    words: Seq<Rendered>,
    pairs: Seq<(Seq<char>, Seq<char>)>,
    count: int,
    error: ReplacementError,
)
    requires
        0 <= count <= pairs.len(),
        replaced(words, pairs.take(count)) == Err::<Seq<Rendered>, ReplacementError>(error),
    ensures
        replaced(words, pairs) == Err::<Seq<Rendered>, ReplacementError>(error),
    decreases pairs.len() - count,
{
    if count < pairs.len() {
        assert(pairs.take(count + 1).drop_last() =~= pairs.take(count));
        lemma_replacement_error(words, pairs, count + 1, error);
    } else {
        assert(pairs.take(count) =~= pairs);
    }
}

/// `line` without the carriage returns at its end.
pub open spec fn strip_returns(line: Seq<char>) -> Seq<char>
    decreases line.len(),
{
    if line.len() > 0 && line.last() == '\r' {
        strip_returns(line.drop_last())
    } else {
        line
    }
}

fn drop_returns(line: &mut Vec<char>)
    ensures
        final(line)@ == strip_returns(old(line)@),
{
    while line.len() > 0 && line[line.len() - 1] == '\r'
        invariant
            strip_returns(line@) == strip_returns(old(line)@),
        decreases line.len(),
    {
        let ghost before = line@;
        line.pop();
        assert(line@ =~= before.drop_last());
    }
}

/// The pair on one line of a replacement file: what stands before and after the first colon.
/// A line without a colon, or with nothing before it, holds none.
pub open spec fn line_pair(line: Seq<char>) -> Option<(Seq<char>, Seq<char>)> {
    let content = strip_returns(line);
    let colon = text::next_mark(content, ':', 0);
    if 0 < colon < content.len() {
        Some((content.take(colon), content.skip(colon + 1)))
    } else {
        None
    }
}

/// The pairs that the given lines hold, in order.
pub open spec fn line_pairs(lines: Seq<Seq<char>>) -> Seq<(Seq<char>, Seq<char>)>
    decreases lines.len(),
{
    if lines.len() == 0 {
        Seq::empty()
    } else {
        match line_pair(lines.last()) {
            Some(pair) => line_pairs(lines.drop_last()).push(pair),
            None => line_pairs(lines.drop_last()),
        }
    }
}

/// No pair that a replacement file holds has an empty source.
pub proof fn law_parsed_sources_are_nonempty(lines: Seq<Seq<char>>)
    ensures
        forall|index: int|
            0 <= index < line_pairs(lines).len() ==> (#[trigger] line_pairs(lines)[index]).0.len()
                > 0,
    decreases lines.len(),
{
    if lines.len() > 0 {
        let before = line_pairs(lines.drop_last());
        law_parsed_sources_are_nonempty(lines.drop_last());
        assert forall|index: int| 0 <= index < line_pairs(lines).len() implies (
        #[trigger] line_pairs(lines)[index]).0.len() > 0 by {
            if index < before.len() {
                assert(line_pairs(lines)[index] == before[index]);
            }
        }
    }
}

/// The view of a loaded replacement table.
pub open spec fn table_result(result: Result<ReplacementTable, TextError>) -> Result<
    Seq<(Seq<char>, Seq<char>)>,
    TextError,
> {
    match result {
        Ok(table) => Ok(table.pairs()),
        Err(error) => Err(error),
    }
}

/// The pairs of a replacement file with the given text.
pub open spec fn table_pairs(content: Result<Seq<char>, TextError>) -> Result<
    Seq<(Seq<char>, Seq<char>)>,
    TextError,
> {
    match content {
        Ok(content) => Ok(line_pairs(text::lines(content))),
        Err(error) => Err(error),
    }
}

impl ReplacementTable {
    /// The table that a replacement file with the given text holds.
    pub fn parse(content: &str) -> (table: Self)
        ensures
            table.pairs() == line_pairs(text::lines(content@)),
    {
        let lines: Vec<Vec<char>> = split_lines(&chars_of(content));
        let ghost views = text::char_views(lines@);
        let mut pairs: Vec<(String, String)> = Vec::new();
        for index in 0..lines.len()
            invariant
                views == text::char_views(lines@),
                pair_views(pairs@) == line_pairs(views.take(index as int)),
        {
            let mut line: Vec<char> = part(&lines[index], 0, lines[index].len());
            assert(line@ =~= views[index as int]);
            drop_returns(&mut line);
            let colon: usize = find_mark(&line, ':', 0);
            assert(views.take(index + 1).drop_last() =~= views.take(index as int));
            let ghost before = pairs@;
            if 0 < colon && colon < line.len() {
                let source: Vec<char> = part(&line, 0, colon);
                let target: Vec<char> = part(&line, colon + 1, line.len());
                assert(source@ =~= line@.take(colon as int));
                assert(target@ =~= line@.skip(colon + 1));
                pairs.push((string_of(&source), string_of(&target)));
                assert(pair_views(pairs@) =~= pair_views(before).push((source@, target@)));
            }
        }
        assert(views.take(views.len() as int) =~= views);
        ReplacementTable { replacements: pairs }
    }

    /// The table that a replacement file with the given bytes holds.
    pub fn load(bytes: &[u8], compressed: bool) -> (result: Result<Self, TextError>)
        ensures
            table_result(result) == table_pairs(
                encoding::content_text(encoding::resource(bytes@, compressed)),
            ),
    {
        match decode_text(bytes, compressed) {
            Ok(content) => Ok(ReplacementTable::parse(content.as_str())),
            Err(error) => Err(error),
        }
    }
}

/// The phrases that the given lines hold: the lines that are not empty, in order.
pub open spec fn line_phrases(lines: Seq<Seq<char>>) -> Seq<Seq<char>>
    decreases lines.len(),
{
    if lines.len() == 0 {
        Seq::empty()
    } else {
        let line = strip_returns(lines.last());
        if line.len() == 0 {
            line_phrases(lines.drop_last())
        } else {
            line_phrases(lines.drop_last()).push(line)
        }
    }
}

/// Phrases whose characters number conversion leaves as they are, longest first.
#[derive(Debug)]
pub struct NumericNotChangeList {
    phrases: Vec<Vec<char>>,
}

impl NumericNotChangeList {
    /// The phrases, longest first.
    pub closed spec fn phrases(self) -> Seq<Seq<char>> {
        text::char_views(self.phrases@)
    }

    /// No phrase is empty, the longer ones come first and no phrase follows itself.
    pub open spec fn valid(self) -> bool {
        &&& forall|index: int|
            0 <= index < self.phrases().len() ==> (#[trigger] self.phrases()[index]).len() > 0
        &&& forall|early: int, late: int|
            0 <= early < late < self.phrases().len() ==> (#[trigger] self.phrases()[early]).len()
                >= (#[trigger] self.phrases()[late]).len()
        &&& forall|index: int|
            0 <= index < self.phrases().len() - 1 ==> #[trigger] self.phrases()[index]
                != self.phrases()[index + 1]
    }
}

/// Position `position` lies in a place of `phrase` in `content`, found from `from` on without
/// overlap, that ends within the first `count` characters.
pub open spec fn covered(
    content: Seq<char>,
    phrase: Seq<char>,
    from: int,
    count: int,
    position: int,
) -> bool
    decreases content.len() + 1 - from,
{
    match text::next_text(content, phrase, from) {
        None => false,
        Some(at) => if phrase.len() == 0 || at < from || at + phrase.len() > content.len() {
            false
        } else {
            (at <= position < at + phrase.len() && at + phrase.len() <= count) || covered(
                content,
                phrase,
                at + phrase.len(),
                count,
                position,
            )
        },
    }
}

/// Some phrase covers the position.
pub open spec fn protected(
    content: Seq<char>,
    phrases: Seq<Seq<char>>,
    count: int,
    position: int,
) -> bool {
    exists|index: int|
        0 <= index < phrases.len() && covered(
            content,
            #[trigger] phrases[index],
            0,
            count,
            position,
        )
}

/// Which positions are protected depends on the phrases alone, not on their order or number.
pub proof fn law_protection_ignores_phrase_order(
    content: Seq<char>,
    left: Seq<Seq<char>>,
    right: Seq<Seq<char>>,
    count: int,
    position: int,
)
    requires
        forall|phrase: Seq<char>| left.contains(phrase) <==> right.contains(phrase),
    ensures
        protected(content, left, count, position) == protected(content, right, count, position),
{
    if protected(content, left, count, position) {
        let index = choose|index: int|
            0 <= index < left.len() && covered(content, #[trigger] left[index], 0, count, position);
        assert(left.contains(left[index]));
        assert(right.contains(left[index]));
    }
    if protected(content, right, count, position) {
        let index = choose|index: int|
            0 <= index < right.len() && covered(content, #[trigger] right[index], 0, count, position);
        assert(right.contains(right[index]));
        assert(left.contains(right[index]));
    }
}

/// Outside of what is still to be marked from `from` on, `labels` is `before` with what the
/// phrase covers marked.
spec fn marked_but_from(
    content: Seq<char>,
    phrase: Seq<char>,
    from: int,
    before: Seq<String>,
    labels: Seq<String>,
    position: int,
) -> bool {
    let count = before.len() as int;
    if covered(content, phrase, from, count, position) {
        covered(content, phrase, 0, count, position)
    } else if covered(content, phrase, 0, count, position) {
        labels[position]@ == "O"@
    } else {
        labels[position]@ == before[position]@
    }
}

/// Marks the labels that one phrase covers with `O`.
fn protect_phrase(content: &[char], phrase: &[char], labels: &mut Vec<String>)
    requires
        phrase@.len() > 0,
    ensures
        final(labels)@.len() == old(labels)@.len(),
        forall|position: int|
            0 <= position < old(labels)@.len() ==> (#[trigger] final(labels)@[position])@ == (
            if covered(content@, phrase@, 0, old(labels)@.len() as int, position) {
                "O"@
            } else {
                old(labels)@[position]@
            }),
{
    let ghost initial = labels@;
    let length: usize = content.len();
    let mut search_start: usize = 0;
    loop
        invariant
            phrase@.len() > 0,
            length == content@.len(),
            initial == old(labels)@,
            labels@.len() == initial.len(),
            forall|position: int|
                0 <= position < initial.len() ==> #[trigger] marked_but_from(
                    content@,
                    phrase@,
                    search_start as int,
                    initial,
                    labels@,
                    position,
                ),
        ensures
            labels@.len() == initial.len(),
            text::next_text(content@, phrase@, search_start as int) is None,
        decreases content@.len() + 1 - search_start,
    {
        let start: usize = match find_text(content, phrase, search_start) {
            Some(start) => start,
            None => {
                break;
            },
        };
        let end: usize = start + phrase.len();
        let ghost before = labels@;
        if end <= labels.len() {
            for position in start..end
                invariant
                    start <= end <= labels@.len(),
                    labels@.len() == before.len(),
                    forall|other: int| #![trigger labels@[other]]
                        0 <= other < labels@.len() ==> labels@[other]@ == (if start <= other
                            < position {
                            "O"@
                        } else {
                            before[other]@
                        }),
            {
                let label: String = "O".to_owned();
                labels.set(position, label);
            }
        }
        proof {
            assert forall|position: int| 0 <= position < initial.len() implies #[trigger] marked_but_from(
                content@,
                phrase@,
                end as int,
                initial,
                labels@,
                position,
            ) by {
                assert(marked_but_from(
                    content@,
                    phrase@,
                    search_start as int,
                    initial,
                    before,
                    position,
                ));
                assert(labels@[position]@ == if start <= position < end && end <= labels@.len() {
                    "O"@
                } else {
                    before[position]@
                });
            }
        }
        search_start = end;
    }
    proof {
        assert forall|position: int| 0 <= position < initial.len() implies (
        #[trigger] labels@[position])@ == (if covered(
            content@,
            phrase@,
            0,
            initial.len() as int,
            position,
        ) {
            "O"@
        } else {
            initial[position]@
        }) by {
            assert(marked_but_from(
                content@,
                phrase@,
                search_start as int,
                initial,
                labels@,
                position,
            ));
        }
    }
}

impl NumericNotChangeList {
    /// The list that a phrase file with the given text holds.
    pub fn parse(content: &str) -> (list: Self)
        ensures
            list.valid(),
            forall|phrase: Seq<char>|
                list.phrases().contains(phrase) <==> line_phrases(
                    text::lines(content@),
                ).contains(phrase),
    {
        let phrases: Vec<Vec<char>> = nonempty_lines(content);
        let mut lengths: Vec<u64> = Vec::new();
        for index in 0..phrases.len()
            invariant
                lengths.len() == index,
                forall|earlier: int|
                    0 <= earlier < index ==> #[trigger] lengths[earlier] == phrases@[earlier]@.len(),
        {
            lengths.push(phrases[index].len() as u64);
        }
        let order: Vec<usize> = stable_descending(&lengths);
        let ghost source = text::char_views(phrases@);
        let mut sorted: Vec<Vec<char>> = Vec::new();
        // for each place taken from the ranking, where its phrase stands in the list
        for place in 0..order.len()
            invariant
                source == text::char_views(phrases@),
                rank::is_ranking(lengths@, order@, lengths@.len() as int),
                lengths@.len() == phrases@.len(),
                forall|index: int|
                    0 <= index < phrases@.len() ==> #[trigger] lengths[index]
                        == phrases@[index]@.len(),
                forall|index: int|
                    0 <= index < source.len() ==> (#[trigger] source[index]).len() > 0,
                forall|index: int| #![trigger sorted@[index]]
                    0 <= index < sorted@.len() ==> source.contains(sorted@[index]@),
                forall|earlier: int|
                    0 <= earlier < place ==> text::char_views(sorted@).contains(
                        source[#[trigger] order@[earlier] as int],
                    ),
                sorted@.len() == 0 <==> place == 0,
                sorted@.len() > 0 ==> sorted@.last()@ == source[order@[place - 1] as int],
                forall|early: int, late: int|
                    0 <= early < late < sorted@.len() ==> (#[trigger] sorted@[early])@.len() >= (
                    #[trigger] sorted@[late])@.len(),
                forall|index: int| #![trigger sorted@[index]]
                    0 <= index < sorted@.len() - 1 ==> sorted@[index]@ != sorted@[index + 1]@,
        {
            let phrase: &Vec<char> = &phrases[order[place]];
            let ghost before = sorted@;
            assert(source.contains(phrase@)) by {
                assert(source[order@[place as int] as int] == phrase@);
            }
            if sorted.len() == 0 || !same_chars(&sorted[sorted.len() - 1], phrase) {
                proof {
                    if before.len() > 0 {
                        assert(rank::ranks_before(
                            lengths@,
                            order@[place - 1] as int,
                            order@[place as int] as int,
                        ));
                        assert(before.last()@.len() >= phrase@.len());
                    }
                }
                sorted.push(part(phrase, 0, phrase.len()));
                assert(sorted@.last()@ =~= phrase@);
            }
            proof {
                assert forall|earlier: int| 0 <= earlier < place + 1 implies text::char_views(
                    sorted@,
                ).contains(source[#[trigger] order@[earlier] as int]) by {
                    let wanted = source[order@[earlier] as int];
                    if earlier < place {
                        assert(text::char_views(before).contains(wanted));
                        let at = choose|at: int|
                            0 <= at < before.len() && text::char_views(before)[at] == wanted;
                        assert(text::char_views(sorted@)[at] == wanted);
                    } else {
                        assert(text::char_views(sorted@)[sorted@.len() - 1] == wanted);
                    }
                }
            }
        }
        let list = NumericNotChangeList { phrases: sorted };
        proof {
            assert forall|phrase: Seq<char>| list.phrases().contains(phrase) <==> source.contains(
                phrase,
            ) by {
                if list.phrases().contains(phrase) {
                    let at = choose|at: int|
                        0 <= at < sorted@.len() && list.phrases()[at] == phrase;
                    assert(source.contains(sorted@[at]@));
                }
                if source.contains(phrase) {
                    let index = choose|index: int| 0 <= index < source.len() && source[index] == phrase;
                    assert(order@.contains(index as usize));
                    let place = choose|place: int|
                        0 <= place < order@.len() && order@[place] == index as usize;
                    assert(source[order@[place] as int] == phrase);
                }
            }
        }
        list
    }

    /// The list that a phrase file with the given bytes holds.
    pub fn load(bytes: &[u8], compressed: bool) -> (result: Result<Self, TextError>)
        ensures
            match encoding::content_text(encoding::resource(bytes@, compressed)) {
                Ok(content) => result is Ok && result->Ok_0.valid() && forall|phrase: Seq<char>|
                    result->Ok_0.phrases().contains(phrase) <==> line_phrases(
                        text::lines(content),
                    ).contains(phrase),
                Err(error) => result == Err::<Self, TextError>(error),
            },
    {
        match decode_text(bytes, compressed) {
            Ok(content) => Ok(NumericNotChangeList::parse(content.as_str())),
            Err(error) => Err(error),
        }
    }

    /// Marks the label of each protected character with `O`.
    pub fn protect(&self, content: &[char], labels: &mut Vec<String>)
        requires
            self.valid(),
        ensures
            final(labels)@.len() == old(labels)@.len(),
            forall|position: int|
                0 <= position < old(labels)@.len() ==> (#[trigger] final(labels)@[position])@ == (
                if protected(content@, self.phrases(), old(labels)@.len() as int, position) {
                    "O"@
                } else {
                    old(labels)@[position]@
                }),
    {
        let ghost count = labels@.len() as int;
        let ghost phrases = self.phrases();
        for index in 0..self.phrases.len()
            invariant
                self.valid(),
                phrases == text::char_views(self.phrases@),
                phrases == self.phrases(),
                count == old(labels)@.len(),
                labels@.len() == old(labels)@.len(),
                forall|position: int| #![trigger labels@[position]]
                    0 <= position < count ==> labels@[position]@ == (if protected(
                        content@,
                        phrases.take(index as int),
                        count,
                        position,
                    ) {
                        "O"@
                    } else {
                        old(labels)@[position]@
                    }),
        {
            let ghost before = labels@;
            assert(phrases[index as int].len() > 0);
            protect_phrase(content, &self.phrases[index], labels);
            proof {
                assert forall|position: int| #![trigger labels@[position]]
                    0 <= position < count implies labels@[position]@ == (if protected(
                    content@,
                    phrases.take(index + 1),
                    count,
                    position,
                ) {
                    "O"@
                } else {
                    old(labels)@[position]@
                }) by {
                    assert(before[position]@ == before[position]@);
                    lemma_protected_step(content@, phrases, count, position, index as int);
                }
            }
        }
        assert(phrases.take(phrases.len() as int) =~= phrases);
    }
}

proof fn lemma_protected_step(
    content: Seq<char>,
    phrases: Seq<Seq<char>>,
    count: int,
    position: int,
    index: int,
)
    requires
        0 <= index < phrases.len(),
    ensures
        protected(content, phrases.take(index + 1), count, position) == (protected(
            content,
            phrases.take(index),
            count,
            position,
        ) || covered(content, phrases[index], 0, count, position)),
{
    let more = phrases.take(index + 1);
    let less = phrases.take(index);
    if protected(content, more, count, position) {
        let at = choose|at: int|
            0 <= at < more.len() && covered(content, #[trigger] more[at], 0, count, position);
        if at < index {
            assert(less[at] == more[at]);
        }
    }
    if protected(content, less, count, position) {
        let at = choose|at: int|
            0 <= at < less.len() && covered(content, #[trigger] less[at], 0, count, position);
        assert(more[at] == less[at]);
    }
    if covered(content, phrases[index], 0, count, position) {
        assert(more[index] == phrases[index]);
    }
}

/// The lines of a text that are not empty once carriage returns are off their ends.
fn nonempty_lines(content: &str) -> (result: Vec<Vec<char>>)
    ensures
        text::char_views(result@) == line_phrases(text::lines(content@)),
        forall|index: int|
            0 <= index < result@.len() ==> (#[trigger] text::char_views(result@)[index]).len() > 0,
{
    let lines: Vec<Vec<char>> = split_lines(&chars_of(content));
    let ghost views = text::char_views(lines@);
    let mut result: Vec<Vec<char>> = Vec::new();
    for index in 0..lines.len()
        invariant
            views == text::char_views(lines@),
            text::char_views(result@) == line_phrases(views.take(index as int)),
            forall|earlier: int|
                0 <= earlier < result@.len() ==> (#[trigger] text::char_views(
                    result@,
                )[earlier]).len() > 0,
    {
        let mut line: Vec<char> = part(&lines[index], 0, lines[index].len());
        assert(line@ =~= views[index as int]);
        drop_returns(&mut line);
        assert(views.take(index + 1).drop_last() =~= views.take(index as int));
        let ghost before = result@;
        if line.len() > 0 {
            result.push(line);
            assert(text::char_views(result@) =~= text::char_views(before).push(line@));
        }
    }
    assert(views.take(views.len() as int) =~= views);
    result
}

/// A source is found at its first place from the start on, and only where it has one.
pub proof fn law_sources_are_found_first(content: Seq<char>, source: Seq<char>, start: int)
    requires
        0 <= start,
    ensures
        match next_source(content, source, start) {
            Some(at) => start <= at && source_at(content, source, at) && forall|earlier: int|
                start <= earlier < at ==> !#[trigger] source_at(content, source, earlier),
            None => forall|at: int| start <= at ==> !#[trigger] source_at(content, source, at),
        },
    decreases content.len() + 1 - start,
{
    if start + source.len() <= content.len() && !source_at(content, source, start) {
        law_sources_are_found_first(content, source, start + 1);
    }
}

/// A text without the source stays; otherwise its first place becomes the target, and the rest is
/// rewritten from behind the target on.
pub proof fn law_the_first_place_is_rewritten(
    content: Seq<char>,
    source: Seq<char>,
    target: Seq<char>,
    from: int,
    at: int,
)
    requires
        source.len() > 0,
        0 <= from <= at,
        forall|earlier: int| from <= earlier < at ==> !#[trigger] source_at(content, source, earlier),
    ensures
        source_at(content, source, at) ==> rewritten_from(content, source, target, from)
            == rewritten_from(
            content.take(at) + target + content.skip(at + source.len()),
            source,
            target,
            at + target.len(),
        ),
        at >= content.len() ==> rewritten_from(content, source, target, from) == content,
{
    law_sources_are_found_first(content, source, from);
    if source_at(content, source, at) {
        assert(next_source(content, source, from) == Some(at));
    }
}

/// Replacing a range leaves the words that lie before it and behind it as they are.
pub proof fn law_words_outside_of_a_replacement_stay(
    words: Seq<Rendered>,
    start: int,
    end: int,
    target: Seq<char>,
    index: int,
)
    requires
        0 <= start,
        0 <= index < words.len(),
        replaced_once(words, start, end, target) is Ok,
    ensures
        ({
            let after = replaced_once(words, start, end, target)->Ok_0;
            &&& word_start(words, index + 1) <= start ==> index < after.len() && after[index]
                == words[index]
            &&& word_start(words, index) >= end ==> after.len() >= words.len() - index
                && after[after.len() - (words.len() - index)] == words[index]
        }),
{
    let after = replaced_once(words, start, end, target)->Ok_0;
    let first = first_word(words, start, 0);
    let last = last_word(words, end, words.len() - 1);
    lemma_touched(words, start, end);
    if word_start(words, index + 1) <= start {
        if first <= index {
            lemma_word_start_order(words, first + 1, index + 1);
        }
        assert(after[index] == words[index]);
    }
    if word_start(words, index) >= end {
        if index <= last {
            lemma_word_start_order(words, index, last);
        }
        let tail = words.skip(last + 1);
        assert(after[after.len() - (words.len() - index)] == tail[index - last - 1]);
    }
}

proof fn lemma_next_mark(content: Seq<char>, mark: char, start: int, at: int)
    requires
        0 <= start <= at < content.len(),
        content[at] == mark,
        forall|earlier: int| start <= earlier < at ==> content[earlier] != mark,
    ensures
        text::next_mark(content, mark, start) == at,
    decreases at - start,
{
    if start < at {
        lemma_next_mark(content, mark, start + 1, at);
    }
}

/// A line of a source, a colon and a target reads back as that pair, with a carriage return behind
/// it too.
pub proof fn law_pairs_read_back(source: Seq<char>, target: Seq<char>)
    requires
        source.len() > 0,
        !source.contains(':'),
        target.len() > 0 ==> target.last() != '\r',
    ensures
        line_pair(source.push(':') + target) == Some((source, target)),
        line_pair((source.push(':') + target).push('\r')) == Some((source, target)),
{
    let line = source.push(':') + target;
    let colon = source.len() as int;
    assert(line.last() != '\r');
    assert(strip_returns(line) == line);
    assert(line.push('\r').drop_last() =~= line);
    assert(strip_returns(line.push('\r')) == line);
    assert forall|earlier: int| 0 <= earlier < colon implies line[earlier] != ':' by {
        assert(line[earlier] == source[earlier]);
        assert(source.contains(source[earlier]));
    }
    lemma_next_mark(line, ':', 0, colon);
    assert(line.take(colon) =~= source);
    assert(line.skip(colon + 1) =~= target);
}

proof fn lemma_next_text(content: Seq<char>, pattern: Seq<char>, start: int)
    requires
        0 <= start,
    ensures
        match text::next_text(content, pattern, start) {
            Some(at) => start <= at && text::occurs_at(content, pattern, at) && forall|earlier: int|
                start <= earlier < at ==> !#[trigger] text::occurs_at(content, pattern, earlier),
            None => forall|at: int| start <= at ==> !#[trigger] text::occurs_at(
                content,
                pattern,
                at,
            ),
        },
    decreases content.len() + 1 - start,
{
    if start + pattern.len() <= content.len() && !text::occurs_at(content, pattern, start) {
        lemma_next_text(content, pattern, start + 1);
    }
}

/// Only places of a phrase are covered by it: a covered position lies in such a place, which ends
/// within the characters that count.
pub proof fn law_covered_positions_lie_in_the_phrase(
    content: Seq<char>,
    phrase: Seq<char>,
    from: int,
    count: int,
    position: int,
) -> (at: int)
    requires
        0 <= from,
        covered(content, phrase, from, count, position),
    ensures
        from <= at <= position < at + phrase.len() <= count,
        text::occurs_at(content, phrase, at),
    decreases content.len() + 1 - from,
{
    lemma_next_text(content, phrase, from);
    let at = text::next_text(content, phrase, from)->0;
    if at <= position < at + phrase.len() && at + phrase.len() <= count {
        at
    } else {
        law_covered_positions_lie_in_the_phrase(
            content,
            phrase,
            at + phrase.len(),
            count,
            position,
        )
    }
}

/// A place of a phrase that no earlier place of it overlaps is covered.
pub proof fn law_first_places_are_covered(
    content: Seq<char>,
    phrase: Seq<char>,
    from: int,
    count: int,
    at: int,
    position: int,
)
    requires
        0 <= from <= at,
        phrase.len() > 0,
        text::occurs_at(content, phrase, at),
        forall|earlier: int|
            from <= earlier < at ==> !#[trigger] text::occurs_at(content, phrase, earlier),
        at <= position < at + phrase.len() <= count,
    ensures
        covered(content, phrase, from, count, position),
{
    lemma_next_text(content, phrase, from);
}

}
