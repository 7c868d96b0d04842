//! Punctuation marks between words.

use std::collections::HashSet;

use vstd::prelude::*;

use crate::text;
use crate::types;
use crate::types::{ProcessedWord, Rendered, RenderedWord, Word, WordKind};
use crate::words;

verus! {

broadcast use vstd::std_specs::hash::group_hash_axioms;

/// The mark that a label stands for, in Chinese or English form.
pub open spec fn mark_text(label: int, chinese: bool) -> Seq<char> {
    if label == 1 {
        if chinese { "\u{ff0c}"@ } else { ", "@ }
    } else if label == 2 {
        if chinese { "\u{3002}"@ } else { "."@ }
    } else if label == 3 {
        if chinese { "\u{ff01}"@ } else { "!"@ }
    } else if label == 4 {
        if chinese { "\u{ff1f}"@ } else { "?"@ }
    } else {
        ""@
    }
}

pub fn punctuation_mark(label: usize, chinese: bool) -> (mark: &'static str)
    ensures
        mark@ == mark_text(label as int, chinese),
{
    match (label, chinese) {
        (1, true) => "\u{ff0c}",
        (1, false) => ", ",
        (2, true) => "\u{3002}",
        (2, false) => ".",
        (3, true) => "\u{ff01}",
        (3, false) => "!",
        (4, true) => "\u{ff1f}",
        (4, false) => "?",
        _ => "",
    }
}

/// What decides which marks stand between words.
pub struct Marks {
    pub labels: Seq<usize>,
    pub boundaries: Set<usize>,
    pub chinese: bool,
    pub final_input: bool,
    pub source_length: nat,
}

/// The label of a source position.
pub open spec fn label_at(labels: Seq<usize>, position: int) -> int {
    if 0 <= position < labels.len() {
        labels[position] as int
    } else {
        0
    }
}

/// A mark follows word `index`: its last source character closes a token and carries a mark's
/// label, no mark stands there already, and the source goes on behind it or is final.
pub open spec fn mark_follows(words: Seq<Rendered>, marks: Marks, index: int) -> bool {
    let word = words[index];
    let position = word.source_end - 1;
    &&& word.kind != WordKind::Punctuation
    &&& !(index + 1 < words.len() && words[index + 1].kind == WordKind::Punctuation
        && words[index + 1].source_end == word.source_end)
    &&& word.source_end > 0
    &&& words::boundary(marks.boundaries, position)
    &&& 1 <= label_at(marks.labels, position) <= 4
    &&& marks.final_input || position + 1 != marks.source_length
}

/// The mark behind word `index`, where there is one.
pub open spec fn mark_after(words: Seq<Rendered>, marks: Marks, index: int) -> Seq<Word> {
    if mark_follows(words, marks, index) {
        seq![
            Word {
                text: mark_text(
                    label_at(marks.labels, words[index].source_end - 1),
                    marks.chinese,
                ),
                kind: WordKind::Punctuation,
            },
        ]
    } else {
        Seq::empty()
    }
}

/// The first `count` words with the marks behind them.
pub open spec fn punctuated(words: Seq<Rendered>, marks: Marks, count: int) -> Seq<Word>
    decreases count,
{
    if count <= 0 {
        Seq::empty()
    } else {
        punctuated(words, marks, count - 1).push(
            Word { text: words[count - 1].text, kind: words[count - 1].kind },
        ) + mark_after(words, marks, count - 1)
    }
}

/// The words of a text that punctuation did not add: every word in its place, with nothing but
/// marks between them.
pub open spec fn without_added_marks(
    words: Seq<Rendered>,
    marks: Marks,
    output: Seq<Word>,
    places: Seq<int>,
) -> bool {
    &&& places.len() == words.len()
    &&& forall|index: int|
        0 <= index < places.len() ==> 0 <= #[trigger] places[index] < output.len()
            && output[places[index]] == (Word {
            text: words[index].text,
            kind: words[index].kind,
        })
    &&& forall|early: int, late: int|
        0 <= early < late < places.len() ==> #[trigger] places[early] < #[trigger] places[late]
    &&& forall|place: int|
        0 <= place < output.len() && !places.contains(place) ==> (
        #[trigger] output[place]).kind == WordKind::Punctuation
}

/// Where the words stand among the marks.
pub open spec fn word_places(words: Seq<Rendered>, marks: Marks, count: int) -> Seq<int>
    decreases count,
{
    if count <= 0 {
        Seq::empty()
    } else {
        word_places(words, marks, count - 1).push(
            punctuated(words, marks, count - 1).len() as int,
        )
    }
}

/// Punctuation keeps every word in order and adds nothing but marks.
pub proof fn law_punctuation_only_adds_marks(words: Seq<Rendered>, marks: Marks, count: int)
    requires
        0 <= count <= words.len(),
    ensures
        without_added_marks(
            words.take(count),
            marks,
            punctuated(words, marks, count),
            word_places(words, marks, count),
        ),
    decreases count,
{
    if count > 0 {
        law_punctuation_only_adds_marks(words, marks, count - 1);
        let before = punctuated(words, marks, count - 1);
        let output = punctuated(words, marks, count);
        let earlier = word_places(words, marks, count - 1);
        let places = word_places(words, marks, count);
        assert forall|index: int| 0 <= index < places.len() implies 0 <= #[trigger] places[index]
            < output.len() && output[places[index]] == (Word {
            text: words.take(count)[index].text,
            kind: words.take(count)[index].kind,
        }) by {
            if index < count - 1 {
                assert(places[index] == earlier[index]);
                assert(words.take(count)[index] == words.take(count - 1)[index]);
            }
        }
        assert forall|place: int| 0 <= place < output.len() && !places.contains(place) implies (
        #[trigger] output[place]).kind == WordKind::Punctuation by {
            if place < before.len() {
                assert(output[place] == before[place]);
                assert(!earlier.contains(place)) by {
                    if earlier.contains(place) {
                        let at = choose|at: int| 0 <= at < earlier.len() && earlier[at] == place;
                        assert(places[at] == place);
                    }
                }
            } else if place == before.len() {
                assert(places[count - 1] == place);
            }
        }
        assert forall|early: int, late: int| 0 <= early < late < places.len() implies
        #[trigger] places[early] < #[trigger] places[late] by {
            if late == count - 1 {
                assert(places[early] == earlier[early]);
            } else {
                assert(places[early] == earlier[early]);
                assert(places[late] == earlier[late]);
            }
        }
    }
}

/// Decides whether a mark follows word `index`, and which label it has.
fn find_mark_after(
    words: &[RenderedWord],
    index: usize,
    labels: &[usize],
    boundaries: &HashSet<usize>,
    final_input: bool,
    source_length: usize,
) -> (label: Option<usize>)
    requires
        index < words@.len(),
    ensures
        forall|marks: Marks|
            marks.labels == labels@ && marks.boundaries == boundaries@ && marks.final_input
                == final_input && marks.source_length == source_length ==> (label is Some)
                == #[trigger] mark_follows(types::rendered_views(words@), marks, index as int),
        label is Some ==> label->0 == label_at(labels@, words@[index as int].source_end - 1),
{
    let word: &RenderedWord = &words[index];
    let count: usize = words.len();
    assert(types::rendered_views(words@)[index as int] == word@);
    assert(index + 1 < count ==> types::rendered_views(words@)[index + 1] == words@[index + 1]@);
    if word.word.kind == WordKind::Punctuation || word.source_end == 0 {
        return None;
    }
    if index + 1 < count && words[index + 1].word.kind == WordKind::Punctuation && words[index
        + 1].source_end == word.source_end {
        return None;
    }
    let position: usize = word.source_end - 1;
    let label: usize = if position < labels.len() {
        labels[position]
    } else {
        0
    };
    if !boundaries.contains(&position) || label < 1 || label > 4 {
        return None;
    }
    if !final_input && position + 1 == source_length {
        return None;
    }
    Some(label)
}

/// Puts marks between words.
pub fn punctuate(
    words: &[RenderedWord],
    labels: &[usize],
    boundaries: &HashSet<usize>,
    chinese: bool,
    final_input: bool,
    source_length: usize,
) -> (output: Vec<ProcessedWord>)
    ensures
        types::word_views(output@) == punctuated(
            types::rendered_views(words@),
            (Marks {
                labels: labels@,
                boundaries: boundaries@,
                chinese,
                final_input,
                source_length: source_length as nat,
            }),
            words@.len() as int,
        ),
{
    let ghost views = types::rendered_views(words@);
    let ghost marks = Marks {
        labels: labels@,
        boundaries: boundaries@,
        chinese,
        final_input,
        source_length: source_length as nat,
    };
    let mut output: Vec<ProcessedWord> = Vec::new();
    assert(types::word_views(output@) =~= Seq::empty());
    for index in 0..words.len()
        invariant
            views == types::rendered_views(words@),
            marks == (Marks {
                labels: labels@,
                boundaries: boundaries@,
                chinese,
                final_input,
                source_length: source_length as nat,
            }),
            types::word_views(output@) == punctuated(views, marks, index as int),
    {
        let ghost before = types::word_views(output@);
        output.push(words[index].word.clone());
        let label: Option<usize> = find_mark_after(
            words,
            index,
            labels,
            boundaries,
            final_input,
            source_length,
        );
        assert((label is Some) == mark_follows(views, marks, index as int));
        if let Some(label) = label {
            output.push(
                ProcessedWord::new(punctuation_mark(label, chinese), WordKind::Punctuation),
            );
        }
        assert(types::word_views(output@) =~= before.push(
            Word { text: views[index as int].text, kind: views[index as int].kind },
        ) + mark_after(views, marks, index as int));
    }
    output
}

}
