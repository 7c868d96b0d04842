//! From the tokens of a path to the words of a transcript.

use vstd::prelude::*;

use crate::text;
use crate::text::{chars_of, decimal_text, part, push_chars, push_text, split_lines, string_of};
use crate::types;

verus! {

/// Why a list of tokens is refused.
#[derive(Clone, Copy, Debug, PartialEq, Eq, Structural)]
pub struct EmptyVocabulary;

/// The tokens of the recogniser, one per line.
pub fn load_vocabulary(content: &str) -> (result: Result<Vec<String>, EmptyVocabulary>)
    ensures
        match result {
            Ok(tokens) => text::lines(content@).len() > 0 && types::text_views(tokens@)
                == text::lines(content@),
            Err(_) => text::lines(content@).len() == 0,
        },
{
    let lines: Vec<Vec<char>> = split_lines(&chars_of(content));
    let ghost views = text::char_views(lines@);
    let mut tokens: Vec<String> = Vec::new();
    for index in 0..lines.len()
        invariant
            views == text::char_views(lines@),
            types::text_views(tokens@) == views.take(index as int),
    {
        let ghost before = tokens@;
        tokens.push(string_of(&lines[index]));
        assert(types::text_views(tokens@) =~= types::text_views(before).push(views[index as int]));
        assert(types::text_views(tokens@) =~= views.take(index + 1));
    }
    assert(views.take(lines@.len() as int) =~= views);
    if tokens.len() == 0 {
        assert(views.len() == 0);
        return Err(EmptyVocabulary);
    }
    assert(types::text_views(tokens@).len() > 0);
    Ok(tokens)
}

/// A token goes on the word before it.
pub open spec fn continues(token: Seq<char>) -> bool {
    token.len() >= 2 && token[0] == '@' && token[1] == '@'
}

/// A token without the mark that it goes on a word.
pub open spec fn unmarked(token: Seq<char>) -> Seq<char> {
    if continues(token) {
        token.skip(2)
    } else {
        token
    }
}

/// The words that tokens make up. A token that goes on a word joins it; with no word before it, it
/// is a word of its own.
pub open spec fn merged(tokens: Seq<Seq<char>>) -> Seq<Seq<char>>
    decreases tokens.len(),
{
    if tokens.len() == 0 {
        Seq::empty()
    } else {
        let before = merged(tokens.drop_last());
        let token = tokens.last();
        if !continues(token) {
            before.push(token)
        } else if before.len() > 0 {
            before.update(before.len() - 1, before.last() + unmarked(token))
        } else if unmarked(token).len() > 0 {
            seq![unmarked(token)]
        } else {
            before
        }
    }
}

/// Joins tokens that go on a word with it.
pub fn merge_bpe_continuations(tokens: Vec<String>) -> (words: Vec<String>)
    ensures
        types::text_views(words@) == merged(types::text_views(tokens@)),
{
    let ghost views = types::text_views(tokens@);
    let mut words: Vec<String> = Vec::new();
    for index in 0..tokens.len()
        invariant
            views == types::text_views(tokens@),
            types::text_views(words@) == merged(views.take(index as int)),
    {
        let ghost before = types::text_views(words@);
        assert(views.take(index + 1).drop_last() =~= views.take(index as int));
        let token: Vec<char> = chars_of(tokens[index].as_str());
        assert(token@ == views[index as int]);
        if token.len() >= 2 && token[0] == '@' && token[1] == '@' {
            let tail: Vec<char> = part(&token, 2, token.len());
            assert(tail@ =~= unmarked(token@));
            let count: usize = words.len();
            if count > 0 {
                let mut word: Vec<char> = chars_of(words[count - 1].as_str());
                push_chars(&mut word, &tail);
                words.set(count - 1, string_of(&word));
                assert(types::text_views(words@) =~= before.update(
                    before.len() - 1,
                    before.last() + tail@,
                ));
            } else if tail.len() > 0 {
                words.push(string_of(&tail));
                assert(types::text_views(words@) =~= seq![tail@]);
            }
        } else {
            words.push(string_of(&token));
            assert(types::text_views(words@) =~= before.push(token@));
        }
    }
    assert(views.take(tokens@.len() as int) =~= views);
    words
}

/// Tokens without their marks.
pub open spec fn all_unmarked(tokens: Seq<Seq<char>>) -> Seq<Seq<char>> {
    Seq::new(tokens.len(), |index: int| unmarked(tokens[index]))
}

proof fn lemma_concat_push(texts: Seq<Seq<char>>, last: Seq<char>)
    ensures
        types::concat(texts.push(last)) == types::concat(texts) + last,
{
    assert(texts.push(last).drop_last() =~= texts);
}

proof fn lemma_concat_extend(texts: Seq<Seq<char>>, tail: Seq<char>)
    requires
        texts.len() > 0,
    ensures
        types::concat(texts.update(texts.len() - 1, texts.last() + tail)) == types::concat(texts)
            + tail,
{
    let longer = texts.update(texts.len() - 1, texts.last() + tail);
    assert(longer.drop_last() =~= texts.drop_last());
    assert(types::concat(texts.drop_last()) + (texts.last() + tail) =~= types::concat(
        texts.drop_last(),
    ) + texts.last() + tail);
}

/// Joining tokens keeps their text, but for the marks.
pub proof fn law_merging_keeps_the_text(tokens: Seq<Seq<char>>)
    ensures
        types::concat(merged(tokens)) == types::concat(all_unmarked(tokens)),
    decreases tokens.len(),
{
    if tokens.len() > 0 {
        let before = merged(tokens.drop_last());
        let token = tokens.last();
        law_merging_keeps_the_text(tokens.drop_last());
        assert(all_unmarked(tokens) =~= all_unmarked(tokens.drop_last()).push(unmarked(token)));
        lemma_concat_push(all_unmarked(tokens.drop_last()), unmarked(token));
        if !continues(token) {
            lemma_concat_push(before, token);
        } else if before.len() > 0 {
            lemma_concat_extend(before, unmarked(token));
        } else {
            assert(before =~= Seq::empty());
            assert(types::concat(before) =~= Seq::empty());
            if unmarked(token).len() > 0 {
                lemma_concat_push(before, unmarked(token));
                assert(before.push(unmarked(token)) =~= seq![unmarked(token)]);
            } else {
                assert(unmarked(token) =~= Seq::empty());
            }
        }
    } else {
        assert(all_unmarked(tokens) =~= merged(tokens));
    }
}

/// A token that is not spoken.
pub open spec fn is_silent(token: Seq<char>) -> bool {
    ||| token == "<s>"@
    ||| token == "</s>"@
    ||| token == "<unk>"@
    ||| token == "<NOISE>"@
    ||| token == "<CAT>"@
}

/// The token of a number, which counts from zero. A number without a token has a name of its own.
pub open spec fn token_at(vocabulary: Seq<Seq<char>>, id: int) -> Seq<char> {
    if id < vocabulary.len() {
        vocabulary[id]
    } else {
        "<score-id:"@ + text::decimal(id as nat) + ">"@
    }
}

/// The spoken tokens of a path, whose numbers count from one.
pub open spec fn spoken(vocabulary: Seq<Seq<char>>, path: Seq<i32>) -> Seq<Seq<char>>
    decreases path.len(),
{
    if path.len() == 0 {
        Seq::empty()
    } else {
        let before = spoken(vocabulary, path.drop_last());
        let id = path.last() - 1;
        if id < 0 || is_silent(token_at(vocabulary, id)) {
            before
        } else {
            before.push(token_at(vocabulary, id))
        }
    }
}

/// The token of a number.
fn find_token(vocabulary: &Vec<String>, id: usize) -> (token: Vec<char>)
    ensures
        token@ == token_at(types::text_views(vocabulary@), id as int),
{
    if id < vocabulary.len() {
        return chars_of(vocabulary[id].as_str());
    }
    let mut token: Vec<char> = chars_of("<score-id:");
    push_chars(&mut token, &decimal_text(id as u64));
    push_text(&mut token, ">");
    token
}

/// Whether a token is not spoken.
fn silent(token: &str) -> (result: bool)
    ensures
        result == is_silent(token@),
{
    token.eq("<s>") || token.eq("</s>") || token.eq("<unk>") || token.eq("<NOISE>") || token.eq(
        "<CAT>",
    )
}

/// The words of a path.
pub fn tokens_from_path(vocabulary: &Vec<String>, path: &[i32]) -> (words: Vec<String>)
    requires
        forall|index: int| 0 <= index < path@.len() ==> #[trigger] path@[index] > i32::MIN,
    ensures
        types::text_views(words@) == merged(
            spoken(types::text_views(vocabulary@), path@),
        ),
{
    let ghost known = types::text_views(vocabulary@);
    let mut raw_tokens: Vec<String> = Vec::new();
    for index in 0..path.len()
        invariant
            forall|place: int| 0 <= place < path@.len() ==> #[trigger] path@[place] > i32::MIN,
            known == types::text_views(vocabulary@),
            types::text_views(raw_tokens@) == spoken(known, path@.take(index as int)),
    {
        let ghost before = types::text_views(raw_tokens@);
        assert(path@.take(index + 1).drop_last() =~= path@.take(index as int));
        let id: i32 = path[index] - 1;
        if id >= 0 {
            let token: String = string_of(&find_token(vocabulary, id as usize));
            if !silent(token.as_str()) {
                let ghost content = token@;
                raw_tokens.push(token);
                assert(types::text_views(raw_tokens@) =~= before.push(content));
            }
        }
    }
    assert(path@.take(path@.len() as int) =~= path@);
    merge_bpe_continuations(raw_tokens)
}

/// How many samples make a second.
pub const SAMPLES_PER_SECOND: u64 = 16_000;

/// A number of samples in milliseconds, as far as it can be counted.
pub fn samples_to_milliseconds(samples: usize) -> (result: u64)
    ensures
        result == (if samples * 1_000 > u64::MAX {
            u64::MAX as int
        } else {
            samples * 1_000
        }) / 16_000,
{
    let thousandths: u64 = match (samples as u64).checked_mul(1_000) {
        Some(thousandths) => thousandths,
        None => u64::MAX,
    };
    thousandths / SAMPLES_PER_SECOND
}

/// Tokens that go on a word, each with its mark.
pub open spec fn marked(parts: Seq<Seq<char>>) -> Seq<Seq<char>> {
    Seq::new(parts.len(), |index: int| seq!['@', '@'] + parts[index])
}

/// Merging undoes the splitting of words: a token that begins a word and marked tokens behind it are
/// one word again, and the words before it are as they were.
pub proof fn law_merging_undoes_splitting(
    tokens: Seq<Seq<char>>,
    first: Seq<char>,
    parts: Seq<Seq<char>>,
)
    requires
        !continues(first),
    ensures
        merged(tokens.push(first) + marked(parts)) == merged(tokens).push(
            first + types::concat(parts),
        ),
    decreases parts.len(),
{
    let all = tokens.push(first) + marked(parts);
    if parts.len() == 0 {
        assert(all =~= tokens.push(first));
        assert(all.drop_last() =~= tokens);
        assert(first + types::concat(parts) =~= first);
    } else {
        let shorter = parts.drop_last();
        law_merging_undoes_splitting(tokens, first, shorter);
        let before = tokens.push(first) + marked(shorter);
        assert(all.drop_last() =~= before);
        let token = all.last();
        assert(token == seq!['@', '@'] + parts.last());
        assert(token[0] == '@' && token[1] == '@');
        assert(unmarked(token) =~= parts.last());
        let words = merged(before);
        assert((first + types::concat(shorter)) + parts.last() =~= first + types::concat(parts));
        assert(merged(all) =~= merged(tokens).push(first + types::concat(parts)));
    }
}

/// A path is spoken token by token: its parts are spoken one after the other, and a number names the
/// token in that place of the vocabulary, counting from one; silent tokens are left out.
pub proof fn law_paths_are_spoken_in_order(
    vocabulary: Seq<Seq<char>>,
    path: Seq<i32>,
    id: i32,
)
    ensures
        spoken(vocabulary, path.push(id)) == spoken(vocabulary, path) + spoken(
            vocabulary,
            seq![id],
        ),
        1 <= id <= vocabulary.len() ==> spoken(vocabulary, seq![id]) == if is_silent(
            vocabulary[id - 1],
        ) {
            Seq::empty()
        } else {
            seq![vocabulary[id - 1]]
        },
        id < 1 ==> spoken(vocabulary, seq![id]).len() == 0,
{
    assert(path.push(id).drop_last() =~= path);
    assert(seq![id].drop_last() =~= Seq::empty());
    reveal_with_fuel(spoken, 2);
    assert(spoken(vocabulary, seq![id].drop_last()) =~= Seq::empty());
    assert(spoken(vocabulary, path.push(id)) =~= spoken(vocabulary, path) + spoken(
        vocabulary,
        seq![id],
    ));
    if 1 <= id <= vocabulary.len() && !is_silent(vocabulary[id - 1]) {
        assert(spoken(vocabulary, seq![id]) =~= seq![vocabulary[id - 1]]);
    }
}

}
