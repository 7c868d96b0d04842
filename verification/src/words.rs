//! Words follow the boundaries of the recognised tokens.

use std::collections::HashSet;

use vstd::prelude::*;

use crate::numeric;
use crate::numeric::{is_digit_character, is_numeric_feature_character};
use crate::pieces;
use crate::pieces::{NumericPiece, Piece};
use crate::text;
use crate::text::{
    char_count, chars_of, includes, is_ascii_digit, part, push_chars, push_text, same_chars,
};
use crate::types;
use crate::types::{Rendered, RenderedWord, WordKind};

verus! {

broadcast use vstd::std_specs::hash::group_hash_axioms;

/// The source character at `position` is the last one of a token.
pub open spec fn boundary(boundaries: Set<usize>, position: int) -> bool {
    0 <= position <= usize::MAX && boundaries.contains(position as usize)
}

/// The part `from..to` of a piece that renders as it is.
pub open spec fn fragment(piece: Piece, from: int, to: int) -> Piece {
    Piece {
        source: piece.source.subrange(from, to),
        text: piece.source.subrange(from, to),
        category: piece.category,
        kind: piece.kind,
    }
}

/// The parts of a piece from `start` on, cut behind each token boundary from `offset` on. The
/// piece begins at source position `cursor`.
pub open spec fn fragments_from(
    piece: Piece,
    boundaries: Set<usize>,
    cursor: int,
    start: int,
    offset: int,
) -> Seq<Piece>
    decreases piece.source.len() - offset,
{
    if offset >= piece.source.len() {
        seq![fragment(piece, start, piece.source.len() as int)]
    } else if boundary(boundaries, cursor + offset - 1) {
        seq![fragment(piece, start, offset)] + fragments_from(
            piece,
            boundaries,
            cursor,
            offset,
            offset + 1,
        )
    } else {
        fragments_from(piece, boundaries, cursor, start, offset + 1)
    }
}

/// A piece that renders as it is, cut at the token boundaries inside it; any other piece whole.
pub open spec fn split_piece(piece: Piece, boundaries: Set<usize>, cursor: int) -> Seq<Piece> {
    if piece.text == piece.source {
        fragments_from(piece, boundaries, cursor, 0, 1)
    } else {
        seq![piece]
    }
}

/// How many source characters the first `count` pieces hold.
pub open spec fn source_length(items: Seq<Piece>, count: int) -> int {
    pieces::sources(items.take(count)).len() as int
}

/// The first `count` pieces, cut at token boundaries.
pub open spec fn split_pieces(items: Seq<Piece>, boundaries: Set<usize>, count: int) -> Seq<Piece>
    decreases count,
{
    if count <= 0 {
        Seq::empty()
    } else {
        split_pieces(items, boundaries, count - 1) + split_piece(
            items[count - 1],
            boundaries,
            source_length(items, count - 1),
        )
    }
}

/// The words after one more piece, which begins at source position `cursor`: inside a token it
/// continues the last word.
pub open spec fn merge_step(
    words: Seq<Rendered>,
    piece: Piece,
    boundaries: Set<usize>,
    cursor: int,
) -> Seq<Rendered> {
    let source_end = (cursor + piece.source.len()) as nat;
    if words.len() > 0 && cursor > 0 && !boundary(boundaries, cursor - 1) {
        words.drop_last().push(
            Rendered {
                text: words.last().text + piece.text,
                kind: WordKind::Text,
                source_end,
            },
        )
    } else {
        words.push(
            Rendered {
                text: piece.text,
                kind: if piece.category is Some {
                    WordKind::Number
                } else {
                    piece.kind
                },
                source_end,
            },
        )
    }
}

/// The words of the first `count` pieces.
pub open spec fn merged(items: Seq<Piece>, boundaries: Set<usize>, count: int) -> Seq<Rendered>
    decreases count,
{
    if count <= 0 {
        Seq::empty()
    } else {
        merge_step(
            merged(items, boundaries, count - 1),
            items[count - 1],
            boundaries,
            source_length(items, count - 1),
        )
    }
}

/// The words of pieces.
pub open spec fn merged_words(items: Seq<Piece>, boundaries: Set<usize>) -> Seq<Rendered> {
    let split = split_pieces(items, boundaries, items.len() as int);
    merged(split, boundaries, split.len() as int)
}

proof fn lemma_source_length_step(items: Seq<Piece>, count: int)
    requires
        0 <= count < items.len(),
    ensures
        source_length(items, count + 1) == source_length(items, count) + items[count].source.len(),
{
    assert(items.take(count + 1).drop_last() =~= items.take(count));
}

proof fn lemma_source_length_grows(items: Seq<Piece>, low: int, high: int)
    requires
        0 <= low <= high <= items.len(),
    ensures
        source_length(items, low) <= source_length(items, high),
    decreases high - low,
{
    if low < high {
        lemma_source_length_step(items, high - 1);
        lemma_source_length_grows(items, low, high - 1);
    }
}

proof fn lemma_texts_split(left: Seq<Piece>, right: Seq<Piece>)
    ensures
        pieces::texts(left + right) == pieces::texts(left) + pieces::texts(right),
    decreases right.len(),
{
    if right.len() == 0 {
        assert(left + right =~= left);
    } else {
        lemma_texts_split(left, right.drop_last());
        assert((left + right).drop_last() =~= left + right.drop_last());
    }
}

proof fn lemma_texts_one(piece: Piece)
    ensures
        pieces::texts(seq![piece]) == piece.text,
{
    reveal_with_fuel(pieces::texts, 2);
    assert(pieces::texts(seq![piece]) =~= piece.text);
}

proof fn lemma_fragments(
    piece: Piece,
    boundaries: Set<usize>,
    cursor: int,
    start: int,
    offset: int,
)
    requires
        0 <= start < offset,
        offset <= piece.source.len() || start == 0,
    ensures
        pieces::sources(fragments_from(piece, boundaries, cursor, start, offset))
            == piece.source.skip(start),
        pieces::texts(fragments_from(piece, boundaries, cursor, start, offset))
            == piece.source.skip(start),
    decreases piece.source.len() - offset,
{
    if offset >= piece.source.len() {
        let last = fragment(piece, start, piece.source.len() as int);
        pieces::lemma_sources_one(last);
        lemma_texts_one(last);
        assert(last.source =~= piece.source.skip(start));
    } else if boundary(boundaries, cursor + offset - 1) {
        let first = fragment(piece, start, offset);
        let rest = fragments_from(piece, boundaries, cursor, offset, offset + 1);
        lemma_fragments(piece, boundaries, cursor, offset, offset + 1);
        pieces::lemma_sources_one(first);
        lemma_texts_one(first);
        pieces::lemma_sources_split(seq![first], rest);
        lemma_texts_split(seq![first], rest);
        assert(piece.source.subrange(start, offset) + piece.source.skip(offset)
            =~= piece.source.skip(start));
    } else {
        lemma_fragments(piece, boundaries, cursor, start, offset + 1);
    }
}

/// Cutting pieces at token boundaries changes neither their source nor their rendering.
pub proof fn law_splitting_keeps_source_and_text(
    items: Seq<Piece>,
    boundaries: Set<usize>,
    count: int,
)
    requires
        0 <= count <= items.len(),
    ensures
        pieces::sources(split_pieces(items, boundaries, count)) == pieces::sources(
            items.take(count),
        ),
        pieces::texts(split_pieces(items, boundaries, count)) == pieces::texts(items.take(count)),
    decreases count,
{
    if count > 0 {
        let before = split_pieces(items, boundaries, count - 1);
        let piece = items[count - 1];
        let cursor = source_length(items, count - 1);
        let parts = split_piece(piece, boundaries, cursor);
        law_splitting_keeps_source_and_text(items, boundaries, count - 1);
        assert(items.take(count).drop_last() =~= items.take(count - 1));
        pieces::lemma_sources_split(before, parts);
        lemma_texts_split(before, parts);
        if piece.text == piece.source {
            lemma_fragments(piece, boundaries, cursor, 0, 1);
            assert(piece.source.skip(0) =~= piece.source);
        } else {
            pieces::lemma_sources_one(piece);
            lemma_texts_one(piece);
        }
    }
}

/// Merging pieces into words keeps their joined rendering, and the last word ends where the
/// source does.
pub proof fn law_merging_keeps_the_text(items: Seq<Piece>, boundaries: Set<usize>, count: int)
    requires
        0 <= count <= items.len(),
    ensures
        types::joined(merged(items, boundaries, count)) == pieces::texts(items.take(count)),
        count > 0 ==> merged(items, boundaries, count).len() > 0 && merged(
            items,
            boundaries,
            count,
        ).last().source_end == source_length(items, count),
    decreases count,
{
    if count > 0 {
        let before = merged(items, boundaries, count - 1);
        law_merging_keeps_the_text(items, boundaries, count - 1);
        lemma_source_length_step(items, count - 1);
        assert(items.take(count).drop_last() =~= items.take(count - 1));
        let after = merged(items, boundaries, count);
        if after.len() == before.len() + 1 {
            assert(after.drop_last() =~= before);
        } else {
            assert(after.drop_last() =~= before.drop_last());
            assert(types::joined(after) =~= types::joined(before) + items[count - 1].text);
        }
    }
}

/// The words of pieces read as the pieces do.
pub proof fn law_words_keep_the_text(items: Seq<Piece>, boundaries: Set<usize>)
    ensures
        types::joined(merged_words(items, boundaries)) == pieces::texts(items),
{
    let split = split_pieces(items, boundaries, items.len() as int);
    law_splitting_keeps_source_and_text(items, boundaries, items.len() as int);
    law_merging_keeps_the_text(split, boundaries, split.len() as int);
    assert(items.take(items.len() as int) =~= items);
    assert(split.take(split.len() as int) =~= split);
}

/// Appends the part `from..to` of a piece.
fn push_fragment(output: &mut Vec<NumericPiece>, piece: &NumericPiece, from: usize, to: usize)
    requires
        from <= to <= piece.source@.len(),
    ensures
        pieces::piece_views(final(output)@) == pieces::piece_views(old(output)@).push(
            fragment(piece@, from as int, to as int),
        ),
{
    output.push(
        NumericPiece {
            source: part(&piece.source, from, to),
            text: part(&piece.source, from, to),
            category: piece.category,
            kind: piece.kind,
        },
    );
    assert(pieces::piece_views(output@) =~= pieces::piece_views(old(output)@).push(
        fragment(piece@, from as int, to as int),
    ));
}

/// Appends a piece, cut at the token boundaries inside it.
fn push_split(
    output: &mut Vec<NumericPiece>,
    piece: &NumericPiece,
    boundaries: &HashSet<usize>,
    cursor: usize,
)
    requires
        cursor + piece.source@.len() <= usize::MAX,
    ensures
        pieces::piece_views(final(output)@) == pieces::piece_views(old(output)@) + split_piece(
            piece@,
            boundaries@,
            cursor as int,
        ),
{
    if !same_chars(&piece.text, &piece.source) {
        output.push(piece.clone());
        assert(pieces::piece_views(output@) =~= pieces::piece_views(old(output)@) + split_piece(
            piece@,
            boundaries@,
            cursor as int,
        ));
        return;
    }
    let ghost whole = pieces::piece_views(output@) + split_piece(
        piece@,
        boundaries@,
        cursor as int,
    );
    let mut start: usize = 0;
    let mut offset: usize = 1;
    while offset < piece.source.len()
        invariant
            cursor + piece.source@.len() <= usize::MAX,
            start <= piece.source@.len(),
            start < offset,
            start == 0 || offset <= piece.source@.len(),
            whole == pieces::piece_views(output@) + fragments_from(
                piece@,
                boundaries@,
                cursor as int,
                start as int,
                offset as int,
            ),
        decreases piece.source@.len() - offset,
    {
        if boundaries.contains(&(cursor + offset - 1)) {
            let ghost before = pieces::piece_views(output@);
            push_fragment(output, piece, start, offset);
            assert(before + fragments_from(
                piece@,
                boundaries@,
                cursor as int,
                start as int,
                offset as int,
            ) =~= pieces::piece_views(output@) + fragments_from(
                piece@,
                boundaries@,
                cursor as int,
                offset as int,
                offset + 1,
            ));
            start = offset;
        }
        offset = offset + 1;
    }
    let ghost before = pieces::piece_views(output@);
    push_fragment(output, piece, start, piece.source.len());
    assert(pieces::piece_views(output@) =~= before + fragments_from(
        piece@,
        boundaries@,
        cursor as int,
        start as int,
        offset as int,
    ));
}

/// Cuts pieces at token boundaries.
fn expand(items: &[NumericPiece], boundaries: &HashSet<usize>) -> (expanded: Vec<NumericPiece>)
    requires
        pieces::sources(pieces::piece_views(items@)).len() <= usize::MAX,
    ensures
        pieces::piece_views(expanded@) == split_pieces(
            pieces::piece_views(items@),
            boundaries@,
            items@.len() as int,
        ),
{
    let ghost views = pieces::piece_views(items@);
    assert(views.take(views.len() as int) =~= views);
    let mut expanded: Vec<NumericPiece> = Vec::new();
    let mut cursor: usize = 0;
    assert(views.take(0) =~= Seq::empty());
    assert(pieces::piece_views(expanded@) =~= Seq::empty());
    for index in 0..items.len()
        invariant
            views == pieces::piece_views(items@),
            source_length(views, views.len() as int) <= usize::MAX,
            cursor == source_length(views, index as int),
            pieces::piece_views(expanded@) == split_pieces(views, boundaries@, index as int),
    {
        proof {
            lemma_source_length_step(views, index as int);
            lemma_source_length_grows(views, index + 1, views.len() as int);
        }
        push_split(&mut expanded, &items[index], boundaries, cursor);
        cursor = cursor + items[index].source.len();
    }
    expanded
}

/// Merges pieces into words that end at token boundaries.
pub fn merge_text_pieces(
    items: &[NumericPiece],
    boundaries: &HashSet<usize>,
) -> (words: Vec<RenderedWord>)
    requires
        pieces::sources(pieces::piece_views(items@)).len() <= usize::MAX,
    ensures
        types::rendered_views(words@) == merged_words(pieces::piece_views(items@), boundaries@),
{
    let expanded: Vec<NumericPiece> = expand(items, boundaries);
    let ghost views = pieces::piece_views(expanded@);
    proof {
        let source = pieces::piece_views(items@);
        law_splitting_keeps_source_and_text(source, boundaries@, source.len() as int);
        assert(source.take(source.len() as int) =~= source);
        assert(views.take(views.len() as int) =~= views);
        assert(views.take(0) =~= Seq::empty());
    }
    let mut words: Vec<RenderedWord> = Vec::new();
    let mut cursor: usize = 0;
    assert(types::rendered_views(words@) =~= Seq::empty());
    for index in 0..expanded.len()
        invariant
            views == pieces::piece_views(expanded@),
            source_length(views, views.len() as int) <= usize::MAX,
            cursor == source_length(views, index as int),
            types::rendered_views(words@) == merged(views, boundaries@, index as int),
    {
        proof {
            lemma_source_length_step(views, index as int);
            lemma_source_length_grows(views, index + 1, views.len() as int);
        }
        let piece: &NumericPiece = &expanded[index];
        let source_end: usize = cursor + piece.source.len();
        let ghost before = types::rendered_views(words@);
        let continues: bool = words.len() > 0 && cursor > 0 && !boundaries.contains(&(cursor - 1));
        if continues {
            if let Some(previous) = words.pop() {
                let mut content: Vec<char> = chars_of(previous.word.text.as_str());
                push_chars(&mut content, &piece.text);
                words.push(RenderedWord::from_chars(&content, WordKind::Text, source_end));
            }
        } else {
            let kind: WordKind = if piece.category.is_some() {
                WordKind::Number
            } else {
                piece.kind
            };
            words.push(RenderedWord::from_chars(&piece.text, kind, source_end));
        }
        assert(types::rendered_views(words@) =~= merge_step(
            before,
            piece@,
            boundaries@,
            cursor as int,
        ));
        cursor = source_end;
    }
    words
}

/// The words after one more word: one that ends inside a token takes it in.
pub open spec fn coalesce_step(
    words: Seq<Rendered>,
    word: Rendered,
    boundaries: Set<usize>,
) -> Seq<Rendered> {
    if words.len() > 0 && words.last().source_end > 0 && !boundary(
        boundaries,
        words.last().source_end - 1,
    ) {
        words.drop_last().push(
            Rendered {
                text: words.last().text + word.text,
                kind: words.last().kind,
                source_end: word.source_end,
            },
        )
    } else {
        words.push(word)
    }
}

/// The first `count` words, joined inside tokens.
pub open spec fn coalesced(words: Seq<Rendered>, boundaries: Set<usize>, count: int) -> Seq<
    Rendered,
>
    decreases count,
{
    if count <= 0 {
        Seq::empty()
    } else {
        coalesce_step(coalesced(words, boundaries, count - 1), words[count - 1], boundaries)
    }
}

/// Joining words inside tokens keeps the text.
pub proof fn law_coalescing_keeps_the_text(
    words: Seq<Rendered>,
    boundaries: Set<usize>,
    count: int,
)
    requires
        0 <= count <= words.len(),
    ensures
        types::joined(coalesced(words, boundaries, count)) == types::joined(words.take(count)),
    decreases count,
{
    if count > 0 {
        let before = coalesced(words, boundaries, count - 1);
        let after = coalesced(words, boundaries, count);
        law_coalescing_keeps_the_text(words, boundaries, count - 1);
        assert(words.take(count).drop_last() =~= words.take(count - 1));
        if after.len() == before.len() + 1 {
            assert(after.drop_last() =~= before);
        } else {
            assert(after.drop_last() =~= before.drop_last());
            assert(types::joined(after) =~= types::joined(before) + words[count - 1].text);
        }
    }
}

/// Appends `tail` to the text of the last word and moves its end.
fn extend_last(words: &mut Vec<RenderedWord>, tail: &str, source_end: usize)
    requires
        old(words)@.len() > 0,
    ensures
        types::rendered_views(final(words)@) == types::rendered_views(
            old(words)@,
        ).drop_last().push(
            Rendered {
                text: types::rendered_views(old(words)@).last().text + tail@,
                kind: types::rendered_views(old(words)@).last().kind,
                source_end: source_end as nat,
            },
        ),
{
    let ghost before = types::rendered_views(words@);
    if let Some(previous) = words.pop() {
        let mut content: Vec<char> = chars_of(previous.word.text.as_str());
        push_text(&mut content, tail);
        words.push(RenderedWord::from_chars(&content, previous.word.kind, source_end));
        assert(types::rendered_views(words@) =~= before.drop_last().push(
            Rendered {
                text: before.last().text + tail@,
                kind: before.last().kind,
                source_end: source_end as nat,
            },
        ));
    }
}

/// Joins words that stand inside one token.
pub fn coalesce_within_tokens(
    words: &[RenderedWord],
    boundaries: &HashSet<usize>,
) -> (output: Vec<RenderedWord>)
    ensures
        types::rendered_views(output@) == coalesced(
            types::rendered_views(words@),
            boundaries@,
            words@.len() as int,
        ),
{
    let ghost views = types::rendered_views(words@);
    let mut output: Vec<RenderedWord> = Vec::new();
    assert(types::rendered_views(output@) =~= Seq::empty());
    for index in 0..words.len()
        invariant
            views == types::rendered_views(words@),
            types::rendered_views(output@) == coalesced(views, boundaries@, index as int),
    {
        let ghost before = types::rendered_views(output@);
        assert(output@.len() > 0 ==> before.last() == output@.last()@);
        assert(views[index as int] == words@[index as int]@);
        let inside: bool = if output.len() > 0 {
            let end: usize = output[output.len() - 1].source_end;
            end > 0 && !boundaries.contains(&(end - 1))
        } else {
            false
        };
        if inside {
            extend_last(&mut output, words[index].word.text.as_str(), words[index].source_end);
        } else {
            output.push(words[index].clone());
            assert(types::rendered_views(output@) =~= before.push(words@[index as int]@));
        }
    }
    output
}

/// How many points the first `count` characters hold.
pub open spec fn point_count(value: Seq<char>, count: int) -> int
    decreases count,
{
    if count <= 0 {
        0
    } else {
        point_count(value, count - 1) + (if value[count - 1] == '.' {
            1int
        } else {
            0int
        })
    }
}

/// Digits with at most one point among them, and at least one digit.
pub open spec fn unsigned_decimal(value: Seq<char>) -> bool {
    &&& forall|index: int|
        0 <= index < value.len() ==> (#[trigger] value[index]) == '.' || is_ascii_digit(value[index])
    &&& exists|index: int| 0 <= index < value.len() && is_ascii_digit(#[trigger] value[index])
    &&& point_count(value, value.len() as int) <= 1
}

proof fn lemma_point_count_grows(value: Seq<char>, low: int, high: int)
    requires
        0 <= low <= high,
    ensures
        0 <= point_count(value, low) <= point_count(value, high),
    decreases high,
{
    if high > 0 {
        if low < high {
            lemma_point_count_grows(value, low, high - 1);
        } else {
            lemma_point_count_grows(value, low - 1, high - 1);
        }
    }
}

pub fn is_unsigned_decimal(value: &[char]) -> (result: bool)
    ensures
        result == unsigned_decimal(value@),
{
    let mut point: bool = false;
    let mut digit: bool = false;
    for index in 0..value.len()
        invariant
            point_count(value@, index as int) == (if point {
                1int
            } else {
                0int
            }),
            digit == (exists|earlier: int|
                0 <= earlier < index && is_ascii_digit(#[trigger] value@[earlier])),
            forall|earlier: int|
                0 <= earlier < index ==> (#[trigger] value@[earlier]) == '.' || is_ascii_digit(
                    value@[earlier],
                ),
    {
        if value[index] == '.' && !point {
            point = true;
        } else if is_ascii_digit(value[index]) {
            assert(is_ascii_digit(value@[index as int]));
            digit = true;
        } else {
            proof {
                lemma_point_count_grows(value@, index + 1, value@.len() as int);
                assert(value@[index as int] == value@[index as int]);
            }
            return false;
        }
    }
    digit
}

/// The words after one more word: a per-mille sign joins the plain number before it.
pub open spec fn per_mille_step(words: Seq<Rendered>, word: Rendered) -> Seq<Rendered> {
    if word.text == "‰"@ && words.len() > 0 && unsigned_decimal(words.last().text) {
        words.drop_last().push(
            Rendered {
                text: words.last().text + "‰"@,
                kind: words.last().kind,
                source_end: word.source_end,
            },
        )
    } else {
        words.push(word)
    }
}

/// The first `count` words with per-mille signs joined to their numbers.
pub open spec fn per_mille_joined(words: Seq<Rendered>, count: int) -> Seq<Rendered>
    decreases count,
{
    if count <= 0 {
        Seq::empty()
    } else {
        per_mille_step(per_mille_joined(words, count - 1), words[count - 1])
    }
}

/// Joining per-mille signs to their numbers keeps the text.
pub proof fn law_per_mille_keeps_the_text(words: Seq<Rendered>, count: int)
    requires
        0 <= count <= words.len(),
    ensures
        types::joined(per_mille_joined(words, count)) == types::joined(words.take(count)),
    decreases count,
{
    if count > 0 {
        let before = per_mille_joined(words, count - 1);
        let after = per_mille_joined(words, count);
        law_per_mille_keeps_the_text(words, count - 1);
        assert(words.take(count).drop_last() =~= words.take(count - 1));
        if after.len() == before.len() + 1 {
            assert(after.drop_last() =~= before);
        } else {
            assert(after.drop_last() =~= before.drop_last());
            assert(types::joined(after) =~= types::joined(before) + words[count - 1].text);
        }
    }
}

/// Joins per-mille signs to the plain numbers before them.
pub fn coalesce_per_mille(words: &[RenderedWord]) -> (output: Vec<RenderedWord>)
    ensures
        types::rendered_views(output@) == per_mille_joined(
            types::rendered_views(words@),
            words@.len() as int,
        ),
{
    let ghost views = types::rendered_views(words@);
    let mut output: Vec<RenderedWord> = Vec::new();
    assert(types::rendered_views(output@) =~= Seq::empty());
    for index in 0..words.len()
        invariant
            views == types::rendered_views(words@),
            types::rendered_views(output@) == per_mille_joined(views, index as int),
    {
        let ghost before = types::rendered_views(output@);
        assert(output@.len() > 0 ==> before.last() == output@.last()@);
        assert(views[index as int] == words@[index as int]@);
        if words[index].word.text.as_str().eq("‰") && output.len() > 0 && is_unsigned_decimal(
            &chars_of(output[output.len() - 1].word.text.as_str()),
        ) {
            extend_last(&mut output, "‰", words[index].source_end);
        } else {
            output.push(words[index].clone());
            assert(types::rendered_views(output@) =~= before.push(words@[index as int]@));
        }
    }
    output
}

/// How many characters the first `count` tokens hold.
pub open spec fn token_end(tokens: Seq<Seq<char>>, count: int) -> int {
    types::concat(tokens.take(count)).len() as int
}

pub proof fn lemma_token_end_step(tokens: Seq<Seq<char>>, count: int)
    requires
        0 <= count < tokens.len(),
    ensures
        token_end(tokens, count + 1) == token_end(tokens, count) + tokens[count].len(),
        types::concat(tokens.take(count + 1)) == types::concat(tokens.take(count)) + tokens[count],
{
    assert(tokens.take(count + 1).drop_last() =~= tokens.take(count));
}

pub proof fn lemma_token_end_grows(tokens: Seq<Seq<char>>, low: int, high: int)
    requires
        0 <= low <= high <= tokens.len(),
    ensures
        0 <= token_end(tokens, low) <= token_end(tokens, high),
    decreases high - low,
{
    if low < high {
        lemma_token_end_step(tokens, high - 1);
        lemma_token_end_grows(tokens, low, high - 1);
    }
}

/// The source positions at which tokens end.
pub open spec fn token_boundary_set(tokens: Seq<Seq<char>>, count: int) -> Set<usize> {
    Set::new(
        |position: usize|
            exists|index: int|
                0 <= index < count && position == #[trigger] token_end(tokens, index + 1) - 1,
    )
}

/// Collects the position of the last character of each token.
pub fn token_boundaries(tokens: &[String]) -> (boundaries: HashSet<usize>)
    requires
        tokens@.len() > 0 ==> tokens@[0]@.len() > 0,
        types::concat(types::text_views(tokens@)).len() <= usize::MAX,
    ensures
        boundaries@ == token_boundary_set(types::text_views(tokens@), tokens@.len() as int),
{
    let ghost views = types::text_views(tokens@);
    assert(views.take(views.len() as int) =~= views);
    assert(views.take(0) =~= Seq::empty());
    let mut boundaries: HashSet<usize> = HashSet::new();
    let mut cursor: usize = 0;
    assert(boundaries@ =~= token_boundary_set(views, 0));
    for index in 0..tokens.len()
        invariant
            views == types::text_views(tokens@),
            tokens@.len() > 0 ==> tokens@[0]@.len() > 0,
            token_end(views, views.len() as int) <= usize::MAX,
            cursor == token_end(views, index as int),
            boundaries@ == token_boundary_set(views, index as int),
    {
        proof {
            lemma_token_end_step(views, index as int);
            lemma_token_end_grows(views, index + 1, views.len() as int);
            if index > 0 {
                lemma_token_end_step(views, 0);
                lemma_token_end_grows(views, 1, index as int);
            }
        }
        cursor = cursor + char_count(tokens[index].as_str());
        let ghost before = boundaries@;
        boundaries.insert(cursor - 1);
        assert(boundaries@ =~= token_boundary_set(views, index + 1)) by {
            assert forall|position: usize| boundaries@.contains(position) == token_boundary_set(
                views,
                index + 1,
            ).contains(position) by {
                if position == cursor - 1 {
                    assert(position == token_end(views, index + 1) - 1);
                }
                if token_boundary_set(views, index + 1).contains(position) {
                    let at = choose|at: int|
                        0 <= at < index + 1 && position == #[trigger] token_end(views, at + 1) - 1;
                    if at < index {
                        assert(token_boundary_set(views, index as int).contains(position));
                    }
                }
            }
        }
    }
    boundaries
}

/// The two features of each character of one token: whether it is part of a numeral in a token of
/// several characters, and whether the token began before it.
pub open spec fn token_features(token: Seq<char>) -> Seq<bool> {
    Seq::new(
        2 * token.len(),
        |index: int|
            if index % 2 == 0 {
                token.len() > 1 && numeric::numeric_feature(token[index / 2])
            } else {
                index > 1
            },
    )
}

/// The features of the characters of the first `count` tokens.
pub open spec fn features(tokens: Seq<Seq<char>>, count: int) -> Seq<bool>
    decreases count,
{
    if count <= 0 {
        Seq::empty()
    } else {
        features(tokens, count - 1) + token_features(tokens[count - 1])
    }
}

/// There are two features for each character.
pub proof fn law_two_features_per_character(tokens: Seq<Seq<char>>, count: int)
    requires
        0 <= count <= tokens.len(),
    ensures
        features(tokens, count).len() == 2 * token_end(tokens, count),
    decreases count,
{
    if count > 0 {
        law_two_features_per_character(tokens, count - 1);
        lemma_token_end_step(tokens, count - 1);
    } else {
        assert(tokens.take(0) =~= Seq::empty());
    }
}

/// The features of the characters of tokens, two for each.
pub fn numeric_features(tokens: &[String]) -> (result: Vec<bool>)
    ensures
        result@ == features(types::text_views(tokens@), tokens@.len() as int),
{
    let ghost views = types::text_views(tokens@);
    let mut result: Vec<bool> = Vec::new();
    for index in 0..tokens.len()
        invariant
            views == types::text_views(tokens@),
            result@ == features(views, index as int),
    {
        let characters: Vec<char> = chars_of(tokens[index].as_str());
        let multiple: bool = characters.len() > 1;
        let ghost before = result@;
        for position in 0..characters.len()
            invariant
                multiple == (characters@.len() > 1),
                result@ == before + token_features(characters@).take(2 * position),
        {
            result.push(multiple && is_numeric_feature_character(characters[position]));
            result.push(position > 0);
            assert(token_features(characters@).take(2 * position + 2) =~= token_features(
                characters@,
            ).take(2 * position).push(result@[result@.len() - 2]).push(result@.last()));
        }
        assert(token_features(characters@).take(2 * characters@.len() as int) =~= token_features(
            characters@,
        ));
    }
    result
}

/// A character that can stand in a spoken number, time or date.
pub open spec fn numeric_source(character: char) -> bool {
    numeric::digit(character) is Some || character == '十' || character == '百' || character == '千'
        || character == '万' || character == '亿' || character == '兆' || character == '点'
        || character == '时' || character == '分' || character == '秒' || character == '年'
        || character == '月' || character == '日' || character == '号' || character == '第'
        || character == '负' || character == '正' || character == '半' || character == '整'
        || character == '刻' || character == '加' || character == '减' || character == '等'
        || character == '于' || character == '大' || character == '小' || character == '比'
        || character == '之'
}

pub fn numeric_source_character(character: char) -> (result: bool)
    ensures
        result == numeric_source(character),
{
    is_digit_character(character) || matches!(
        character,
        '十' | '百' | '千' | '万' | '亿' | '兆' | '点' | '时' | '分' | '秒' | '年' | '月' | '日'
            | '号' | '第' | '负' | '正' | '半' | '整' | '刻' | '加' | '减' | '等' | '于' | '大'
            | '小' | '比' | '之'
    )
}

/// A text holds a word for percent, per mille or parts of ten thousand.
pub open spec fn prefix_sign_in(content: Seq<char>) -> bool {
    text::contains_text(content, "百分之"@) || text::contains_text(content, "千分之"@)
        || text::contains_text(content, "万分之"@)
}

pub fn has_prefix_symbol(content: &[char]) -> (result: bool)
    ensures
        result == prefix_sign_in(content@),
{
    includes(content, "百分之") || includes(content, "千分之") || includes(content, "万分之")
}

/// Where words were joined inside tokens, every word but the last one ends with a token.
pub proof fn law_joined_words_end_with_tokens(
    words: Seq<Rendered>,
    boundaries: Set<usize>,
    count: int,
    index: int,
)
    requires
        0 <= count <= words.len(),
        0 <= index < coalesced(words, boundaries, count).len() - 1,
        coalesced(words, boundaries, count)[index].source_end > 0,
    ensures
        boundary(boundaries, coalesced(words, boundaries, count)[index].source_end - 1),
    decreases count,
{
    let before = coalesced(words, boundaries, count - 1);
    let after = coalesced(words, boundaries, count);
    assert(count > 0);
    assert(after[index] == before[index]);
    if index < before.len() - 1 {
        law_joined_words_end_with_tokens(words, boundaries, count - 1, index);
    } else {
        assert(before.last() == before[index]);
    }
}

/// Merging starts a new word only behind the end of a token: every word but the last one ends with
/// one.
pub proof fn law_merged_words_end_with_tokens(
    items: Seq<Piece>,
    boundaries: Set<usize>,
    count: int,
    index: int,
)
    requires
        0 <= count <= items.len(),
        0 <= index < merged(items, boundaries, count).len() - 1,
        merged(items, boundaries, count)[index].source_end > 0,
    ensures
        boundary(boundaries, merged(items, boundaries, count)[index].source_end - 1),
    decreases count,
{
    assert(count > 0);
    let before = merged(items, boundaries, count - 1);
    let after = merged(items, boundaries, count);
    assert(after[index] == before[index]);
    if index < before.len() - 1 {
        law_merged_words_end_with_tokens(items, boundaries, count - 1, index);
    } else {
        law_merging_keeps_the_text(items, boundaries, count - 1);
        assert(before.last() == before[index]);
        assert(before.last().source_end == source_length(items, count - 1));
    }
}

}
