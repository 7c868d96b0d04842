//! Labelled characters become numeric pieces, and pieces become words.

use vstd::prelude::*;

use crate::numeric;
use crate::numeric::{are_sequence_digits, cardinal, digit_sequence, time};
use crate::text;
use crate::text::{chars_of, is_text, part};
use crate::types;
use crate::types::WordKind;

verus! {

/// A run of source characters and its rendering.
#[derive(Debug)]
pub struct NumericPiece {
    pub source: Vec<char>,
    pub text: Vec<char>,
    pub category: Option<char>,
    pub kind: WordKind,
}

/// The view of a [`NumericPiece`].
#[verifier::ext_equal]
pub struct Piece {
    pub source: Seq<char>,
    pub text: Seq<char>,
    pub category: Option<char>,
    pub kind: WordKind,
}

impl View for NumericPiece {
    type V = Piece;

    open spec fn view(&self) -> Piece {
        Piece {
            source: self.source@,
            text: self.text@,
            category: self.category,
            kind: self.kind,
        }
    }
}

/// The views of a sequence of pieces.
pub open spec fn piece_views(pieces: Seq<NumericPiece>) -> Seq<Piece> {
    Seq::new(pieces.len(), |index: int| pieces[index]@)
}

impl Clone for NumericPiece {
    fn clone(&self) -> (copy: Self)
        ensures
            copy@ == self@,
    {
        NumericPiece {
            source: part(&self.source, 0, self.source.len()),
            text: part(&self.text, 0, self.text.len()),
            category: self.category,
            kind: self.kind,
        }
    }
}

/// A piece of plain text, which renders as it is.
pub open spec fn plain(source: Seq<char>) -> Piece {
    Piece { source, text: source, category: None, kind: WordKind::Text }
}

/// One plain piece per character.
pub open spec fn plain_characters(source: Seq<char>) -> Seq<Piece> {
    Seq::new(source.len(), |index: int| plain(seq![source[index]]))
}

/// A category letter that labels carry.
pub open spec fn label_category(character: char) -> bool {
    character == 'A' || character == 'B' || character == 'C' || character == 'D'
}

/// The label that `position` and `category` make up.
pub open spec fn label(position: char, category: char) -> Seq<char> {
    seq![position, category]
}

/// The category of a label whose position letter is one of the two given.
pub open spec fn category_at(value: Seq<char>, first: char, second: char) -> Option<char> {
    if value.len() == 2 && (value[0] == first || value[0] == second) && label_category(value[1]) {
        Some(value[1])
    } else {
        None
    }
}

/// Where a group of the given category ends that is open at `end`: it goes on over middle labels
/// and takes in one end label.
pub open spec fn group_end(labels: Seq<Seq<char>>, category: char, end: int) -> int
    decreases labels.len() - end,
{
    if end >= labels.len() {
        end
    } else if labels[end] == label('E', category) {
        end + 1
    } else if labels[end] == label('M', category) {
        group_end(labels, category, end + 1)
    } else {
        end
    }
}

/// A fraction bar whose second character lost its label.
pub open spec fn split_fraction_bar(
    characters: Seq<char>,
    labels: Seq<Seq<char>>,
    index: int,
) -> bool {
    &&& labels[index] == "BC"@
    &&& index + 1 < labels.len()
    &&& labels[index + 1] == "O"@
    &&& index + 1 < characters.len()
    &&& characters[index] == '分'
    &&& characters[index + 1] == '之'
}

/// The span that begins at `index`, as its end and its category.
pub open spec fn span_at(
    characters: Seq<char>,
    labels: Seq<Seq<char>>,
    index: int,
) -> Option<(int, char)> {
    if index >= labels.len() {
        None
    } else if category_at(labels[index], 'B', 'M') is Some {
        let category = category_at(labels[index], 'B', 'M')->0;
        if split_fraction_bar(characters, labels, index) {
            Some((index + 2, category))
        } else {
            Some((group_end(labels, category, index + 1), category))
        }
    } else if category_at(labels[index], 'S', 'E') is Some {
        Some((index + 1, category_at(labels[index], 'S', 'E')->0))
    } else if labels[index] == "E"@ && index < characters.len() && characters[index] == '万' {
        Some((index + 1, 'A'))
    } else {
        None
    }
}

/// The pieces of one span.
pub open spec fn span_pieces(source: Seq<char>, category: char) -> Seq<Piece> {
    if category == 'B' && !numeric::sequence_digits(source) {
        plain_characters(source)
    } else {
        seq![
            Piece {
                source,
                text: if category == 'A' {
                    numeric::cardinal_text(source)
                } else if category == 'B' {
                    numeric::digits_of(source)
                } else if category == 'D' {
                    numeric::time_text(source)
                } else {
                    source
                },
                category: Some(category),
                kind: WordKind::Number,
            },
        ]
    }
}

/// The pieces of the characters from `index` on.
pub open spec fn converted_from(
    characters: Seq<char>,
    labels: Seq<Seq<char>>,
    index: int,
) -> Seq<Piece>
    decreases characters.len() - index,
{
    if index < 0 || index >= characters.len() {
        Seq::empty()
    } else {
        match span_at(characters, labels, index) {
            Some((end, category)) => if index < end <= characters.len() {
                span_pieces(characters.subrange(index, end), category) + converted_from(
                    characters,
                    labels,
                    end,
                )
            } else {
                Seq::empty()
            },
            None => seq![plain(seq![characters[index]])] + converted_from(
                characters,
                labels,
                index + 1,
            ),
        }
    }
}

/// The pieces of labelled characters.
pub open spec fn converted(characters: Seq<char>, labels: Seq<Seq<char>>) -> Seq<Piece> {
    converted_from(characters, labels, 0)
}

proof fn lemma_group_end(labels: Seq<Seq<char>>, category: char, end: int)
    requires
        0 <= end <= labels.len(),
    ensures
        end <= group_end(labels, category, end) <= labels.len(),
    decreases labels.len() - end,
{
    if end < labels.len() && labels[end] != label('E', category) && labels[end] == label(
        'M',
        category,
    ) {
        lemma_group_end(labels, category, end + 1);
    }
}

/// A span lies within the labels.
pub proof fn lemma_span_bounds(characters: Seq<char>, labels: Seq<Seq<char>>, index: int)
    requires
        0 <= index,
    ensures
        span_at(characters, labels, index) matches Some((end, _)) ==> index < end <= labels.len(),
{
    if index < labels.len() && category_at(labels[index], 'B', 'M') is Some {
        lemma_group_end(labels, category_at(labels[index], 'B', 'M')->0, index + 1);
    }
}

/// No span from `index` on reaches past the characters.
pub open spec fn spans_inside(
    characters: Seq<char>,
    labels: Seq<Seq<char>>,
    index: int,
) -> bool
    decreases characters.len() - index,
{
    if index < 0 || index >= characters.len() {
        true
    } else {
        match span_at(characters, labels, index) {
            Some((end, _)) => index < end <= characters.len() && spans_inside(
                characters,
                labels,
                end,
            ),
            None => spans_inside(characters, labels, index + 1),
        }
    }
}

/// Where there are no more labels than characters, no span reaches past the characters.
pub proof fn lemma_spans_inside(characters: Seq<char>, labels: Seq<Seq<char>>, index: int)
    requires
        0 <= index,
        labels.len() <= characters.len(),
    ensures
        spans_inside(characters, labels, index),
    decreases characters.len() - index,
{
    if index < characters.len() {
        lemma_span_bounds(characters, labels, index);
        match span_at(characters, labels, index) {
            Some((end, _)) => {
                lemma_spans_inside(characters, labels, end);
            },
            None => {
                lemma_spans_inside(characters, labels, index + 1);
            },
        }
    }
}

/// The category of a label whose position letter is one of the two given.
fn find_category(value: &[char], first: char, second: char) -> (category: Option<char>)
    ensures
        category == category_at(value@, first, second),
{
    if value.len() == 2 && (value[0] == first || value[0] == second) && (value[1] == 'A'
        || value[1] == 'B' || value[1] == 'C' || value[1] == 'D') {
        Some(value[1])
    } else {
        None
    }
}

fn is_label(value: &str, position: char, category: char) -> (result: bool)
    ensures
        result == (value@ == label(position, category)),
{
    let value: Vec<char> = chars_of(value);
    let result: bool = value.len() == 2 && value[0] == position && value[1] == category;
    proof {
        if result {
            assert(value@ =~= label(position, category));
        }
    }
    result
}

/// Finds the span that begins at `index`.
pub fn find_span(characters: &[char], labels: &[String], index: usize) -> (span: Option<
    (usize, char),
>)
    requires
        index < characters@.len(),
    ensures
        match span {
            Some((end, category)) => span_at(
                characters@,
                types::text_views(labels@),
                index as int,
            ) == Some((end as int, category)) && index < end <= labels@.len(),
            None => span_at(characters@, types::text_views(labels@), index as int) is None,
        },
{
    let ghost views = types::text_views(labels@);
    proof {
        lemma_span_bounds(characters@, views, index as int);
    }
    if index >= labels.len() {
        return None;
    }
    let value: Vec<char> = chars_of(labels[index].as_str());
    assert(value@ == views[index as int]);
    if let Some(category) = find_category(&value, 'B', 'M') {
        if is_text(&value, "BC") && index + 1 < labels.len() && labels[index + 1].as_str().eq("O")
            && index + 1 < characters.len() && characters[index] == '分' && characters[index + 1]
            == '之' {
            return Some((index + 2, category));
        }
        let mut end: usize = index + 1;
        while end < labels.len() && is_label(labels[end].as_str(), 'M', category)
            invariant
                index < end <= labels@.len(),
                views == types::text_views(labels@),
                group_end(views, category, index + 1) == group_end(views, category, end as int),
            decreases labels@.len() - end,
        {
            assert(views[end as int][0] == 'M');
            assert(label('E', category)[0] == 'E');
            end = end + 1;
        }
        if end < labels.len() && is_label(labels[end].as_str(), 'E', category) {
            end = end + 1;
        }
        return Some((end, category));
    }
    if let Some(category) = find_category(&value, 'S', 'E') {
        return Some((index + 1, category));
    }
    if is_text(&value, "E") && characters[index] == '万' {
        return Some((index + 1, 'A'));
    }
    None
}

/// Appends a plain piece for one character.
fn push_plain(pieces: &mut Vec<NumericPiece>, character: char)
    ensures
        piece_views(final(pieces)@) == piece_views(old(pieces)@).push(plain(seq![character])),
{
    let mut source: Vec<char> = Vec::new();
    source.push(character);
    let mut rendered: Vec<char> = Vec::new();
    rendered.push(character);
    assert(source@ =~= seq![character]);
    assert(rendered@ =~= seq![character]);
    pieces.push(
        NumericPiece { source, text: rendered, category: None, kind: WordKind::Text },
    );
    assert(piece_views(pieces@) =~= piece_views(old(pieces)@).push(plain(seq![character])));
}

/// Appends the pieces of one span.
fn push_span(pieces: &mut Vec<NumericPiece>, source: Vec<char>, category: char)
    ensures
        piece_views(final(pieces)@) == piece_views(old(pieces)@) + span_pieces(source@, category),
{
    if category == 'B' && !are_sequence_digits(&source) {
        for index in 0..source.len()
            invariant
                piece_views(pieces@) == piece_views(old(pieces)@) + plain_characters(source@).take(
                    index as int,
                ),
        {
            push_plain(pieces, source[index]);
            assert(plain_characters(source@).take(index + 1) =~= plain_characters(source@).take(
                index as int,
            ).push(plain(seq![source@[index as int]])));
        }
        assert(plain_characters(source@).take(source@.len() as int) =~= plain_characters(source@));
    } else {
        let rendered: Vec<char> = if category == 'A' {
            cardinal(&source)
        } else if category == 'B' {
            digit_sequence(&source)
        } else if category == 'D' {
            time(&source)
        } else {
            part(&source, 0, source.len())
        };
        let ghost views = source@;
        pieces.push(
            NumericPiece {
                source,
                text: rendered,
                category: Some(category),
                kind: WordKind::Number,
            },
        );
        assert(rendered@ =~= span_pieces(views, category)[0].text);
        assert(piece_views(pieces@) =~= piece_views(old(pieces)@) + span_pieces(views, category));
    }
}

/// Renders labelled characters as pieces.
pub fn convert_numeric(characters: &[char], labels: &[String]) -> (pieces: Vec<NumericPiece>)
    requires
        spans_inside(characters@, types::text_views(labels@), 0),
    ensures
        piece_views(pieces@) == converted(characters@, types::text_views(labels@)),
{
    let ghost views = types::text_views(labels@);
    let mut pieces: Vec<NumericPiece> = Vec::new();
    let mut index: usize = 0;
    assert(piece_views(pieces@) + converted(characters@, views) =~= converted(characters@, views));
    while index < characters.len()
        invariant
            spans_inside(characters@, views, index as int),
            index <= characters@.len(),
            views == types::text_views(labels@),
            piece_views(pieces@) + converted_from(characters@, views, index as int) == converted(
                characters@,
                views,
            ),
        decreases characters@.len() - index,
    {
        let ghost before = piece_views(pieces@);
        match find_span(characters, labels, index) {
            None => {
                push_plain(&mut pieces, characters[index]);
                assert(piece_views(pieces@) + converted_from(characters@, views, index + 1)
                    =~= before + converted_from(characters@, views, index as int));
                index = index + 1;
            },
            Some((end, category)) => {
                push_span(&mut pieces, part(characters, index, end), category);
                assert(piece_views(pieces@) + converted_from(characters@, views, end as int)
                    =~= before + converted_from(characters@, views, index as int));
                index = end;
            },
        }
    }
    assert(piece_views(pieces@) + converted_from(characters@, views, index as int) =~= piece_views(
        pieces@,
    ));
    pieces
}

/// The sources of pieces, one after another.
pub open spec fn sources(pieces: Seq<Piece>) -> Seq<char>
    decreases pieces.len(),
{
    if pieces.len() == 0 {
        Seq::empty()
    } else {
        sources(pieces.drop_last()) + pieces.last().source
    }
}

/// The renderings of pieces, one after another.
pub open spec fn texts(pieces: Seq<Piece>) -> Seq<char>
    decreases pieces.len(),
{
    if pieces.len() == 0 {
        Seq::empty()
    } else {
        texts(pieces.drop_last()) + pieces.last().text
    }
}

pub proof fn lemma_sources_split(left: Seq<Piece>, right: Seq<Piece>)
    ensures
        sources(left + right) == sources(left) + sources(right),
    decreases right.len(),
{
    if right.len() == 0 {
        assert(left + right =~= left);
    } else {
        lemma_sources_split(left, right.drop_last());
        assert((left + right).drop_last() =~= left + right.drop_last());
    }
}

pub proof fn lemma_sources_one(piece: Piece)
    ensures
        sources(seq![piece]) == piece.source,
{
    reveal_with_fuel(sources, 2);
    assert(sources(seq![piece]) =~= piece.source);
}

proof fn lemma_plain_sources(source: Seq<char>)
    ensures
        sources(plain_characters(source)) == source,
    decreases source.len(),
{
    if source.len() > 0 {
        lemma_plain_sources(source.drop_last());
        assert(plain_characters(source).drop_last() =~= plain_characters(source.drop_last()));
        assert(source.drop_last() + seq![source.last()] =~= source);
    }
}

proof fn lemma_span_sources(source: Seq<char>, category: char)
    ensures
        sources(span_pieces(source, category)) == source,
{
    if category == 'B' && !numeric::sequence_digits(source) {
        lemma_plain_sources(source);
    } else {
        lemma_sources_one(span_pieces(source, category)[0]);
    }
}

/// Conversion divides the source without losing or adding a character.
pub proof fn law_conversion_keeps_the_source(
    characters: Seq<char>,
    labels: Seq<Seq<char>>,
    index: int,
)
    requires
        spans_inside(characters, labels, index),
        0 <= index <= characters.len(),
    ensures
        sources(converted_from(characters, labels, index)) == characters.skip(index),
    decreases characters.len() - index,
{
    if index == characters.len() {
        assert(characters.skip(index) =~= Seq::<char>::empty());
    } else {
        lemma_span_bounds(characters, labels, index);
        match span_at(characters, labels, index) {
            Some((end, category)) => {
                let source = characters.subrange(index, end);
                law_conversion_keeps_the_source(characters, labels, end);
                lemma_span_sources(source, category);
                lemma_sources_split(
                    span_pieces(source, category),
                    converted_from(characters, labels, end),
                );
                assert(source + characters.skip(end) =~= characters.skip(index));
            },
            None => {
                let piece = plain(seq![characters[index]]);
                law_conversion_keeps_the_source(characters, labels, index + 1);
                lemma_sources_one(piece);
                lemma_sources_split(seq![piece], converted_from(characters, labels, index + 1));
                assert(seq![characters[index]] + characters.skip(index + 1) =~= characters.skip(
                    index,
                ));
            },
        }
    }
}

/// The labels of a span of `count` characters.
pub open spec fn span_labels(category: char, count: nat) -> Seq<Seq<char>> {
    Seq::new(
        count,
        |index: int|
            label(
                if count == 1 {
                    'S'
                } else if index == 0 {
                    'B'
                } else if index == count - 1 {
                    'E'
                } else {
                    'M'
                },
                category,
            ),
    )
}

proof fn lemma_group_goes_on(labels: Seq<Seq<char>>, category: char, from: int, end: int)
    requires
        0 <= from < end <= labels.len(),
        forall|at: int| from <= at < end - 1 ==> #[trigger] labels[at] == label('M', category),
        labels[end - 1] == label('E', category),
    ensures
        group_end(labels, category, from) == end,
    decreases end - from,
{
    if from < end - 1 {
        assert(labels[from][0] == 'M');
        assert(label('E', category)[0] == 'E');
        lemma_group_goes_on(labels, category, from + 1, end);
    }
}

/// Characters that are labelled as one span, from its beginning to its end, become the pieces of
/// that span, and what follows is converted on its own.
pub proof fn law_labelled_spans_are_pieces(
    characters: Seq<char>,
    labels: Seq<Seq<char>>,
    index: int,
    end: int,
    category: char,
)
    requires
        0 <= index < end <= characters.len(),
        end <= labels.len(),
        label_category(category),
        labels.subrange(index, end) == span_labels(category, (end - index) as nat),
    ensures
        converted_from(characters, labels, index) == span_pieces(
            characters.subrange(index, end),
            category,
        ) + converted_from(characters, labels, end),
{
    let own = span_labels(category, (end - index) as nat);
    reveal_strlit("O");
    assert forall|at: int| index <= at < end implies #[trigger] labels[at] == own[at - index] by {
        assert(labels.subrange(index, end)[at - index] == labels[at]);
    }
    assert(labels[index].len() == 2);
    if end == index + 1 {
        assert(labels[index] == label('S', category));
    } else {
        assert(labels[index] == label('B', category));
        assert(labels[index + 1].len() == 2);
        lemma_group_goes_on(labels, category, index + 1, end);
    }
}

/// A character without a label of any category stays as it is.
pub proof fn law_unlabelled_characters_stay(
    characters: Seq<char>,
    labels: Seq<Seq<char>>,
    index: int,
)
    requires
        0 <= index < characters.len(),
        index < labels.len(),
        labels[index] == "O"@,
    ensures
        converted_from(characters, labels, index) == seq![plain(seq![characters[index]])]
            + converted_from(characters, labels, index + 1),
{
    reveal_strlit("O");
    reveal_strlit("E");
    assert("O"@[0] == 'O');
    assert("E"@[0] == 'E');
}

}
