//! Arithmetic signs, fractions, decimals and measures among numeric pieces.

use vstd::prelude::*;

use crate::numeric;
use crate::numeric::{
    are_sequence_digits, digit_sequence, digit_value, is_numeric_feature_character,
};
use crate::pieces;
use crate::pieces::{NumericPiece, Piece};
use crate::text::{chars_of, is_text, part, prepend, push_chars, push_text, same_chars};
use crate::types::WordKind;

verus! {

/// The sign that a word stands for.
pub open spec fn sign(source: Seq<char>) -> Option<Seq<char>> {
    if source == "点"@ {
        Some("."@)
    } else if source == "加"@ || source == "加上"@ {
        Some("+"@)
    } else if source == "减"@ || source == "减去"@ || source == "负"@ {
        Some("-"@)
    } else if source == "乘"@ || source == "乘以"@ {
        Some("×"@)
    } else if source == "除"@ || source == "除以"@ {
        Some("÷"@)
    } else if source == "等于"@ {
        Some("="@)
    } else if source == "大于"@ {
        Some(">"@)
    } else if source == "小于"@ {
        Some("<"@)
    } else if source == "比"@ {
        Some(":"@)
    } else if source == "摄氏度"@ {
        Some("℃"@)
    } else if source == "华氏度"@ {
        Some("℉"@)
    } else {
        None
    }
}

/// The sign behind a number that a word before it stands for.
pub open spec fn trailing_sign(source: Seq<char>) -> Option<Seq<char>> {
    if source == "百分之"@ {
        Some("%"@)
    } else if source == "千分之"@ {
        Some("‰"@)
    } else if source == "万分之"@ {
        Some("/10000"@)
    } else {
        None
    }
}

/// The view of an optional literal.
pub open spec fn literal(value: Option<&'static str>) -> Option<Seq<char>> {
    match value {
        Some(value) => Some(value@),
        None => None,
    }
}

pub fn symbol(source: &[char]) -> (value: Option<&'static str>)
    ensures
        literal(value) == sign(source@),
{
    if is_text(source, "点") {
        Some(".")
    } else if is_text(source, "加") || is_text(source, "加上") {
        Some("+")
    } else if is_text(source, "减") || is_text(source, "减去") || is_text(source, "负") {
        Some("-")
    } else if is_text(source, "乘") || is_text(source, "乘以") {
        Some("×")
    } else if is_text(source, "除") || is_text(source, "除以") {
        Some("÷")
    } else if is_text(source, "等于") {
        Some("=")
    } else if is_text(source, "大于") {
        Some(">")
    } else if is_text(source, "小于") {
        Some("<")
    } else if is_text(source, "比") {
        Some(":")
    } else if is_text(source, "摄氏度") {
        Some("℃")
    } else if is_text(source, "华氏度") {
        Some("℉")
    } else {
        None
    }
}

pub fn prefix_symbol(source: &[char]) -> (value: Option<&'static str>)
    ensures
        literal(value) == trailing_sign(source@),
{
    if is_text(source, "百分之") {
        Some("%")
    } else if is_text(source, "千分之") {
        Some("‰")
    } else if is_text(source, "万分之") {
        Some("/10000")
    } else {
        None
    }
}

/// A cardinal or a digit sequence.
pub open spec fn countable(category: Option<char>) -> bool {
    category == Some('A') || category == Some('B')
}

fn is_countable(category: Option<char>) -> (result: bool)
    ensures
        result == countable(category),
{
    match category {
        Some(category) => category == 'A' || category == 'B',
        None => false,
    }
}

/// The last piece, where there is one, satisfies the test.
pub open spec fn last_countable(output: Seq<Piece>) -> bool {
    output.len() > 0 && countable(output.last().category)
}

/// A piece at `index` is a cardinal or a digit sequence.
pub open spec fn countable_at(pieces: Seq<Piece>, index: int) -> bool {
    0 <= index < pieces.len() && countable(pieces[index].category)
}

/// The end of the run of pieces with a category that is open at `index`.
pub open spec fn category_run(pieces: Seq<Piece>, index: int) -> int
    decreases pieces.len() - index,
{
    if index < pieces.len() && pieces[index].category is Some {
        category_run(pieces, index + 1)
    } else {
        index
    }
}

/// The end of the run of cardinals and digit sequences that is open at `index`.
pub open spec fn countable_run(pieces: Seq<Piece>, index: int) -> int
    decreases pieces.len() - index,
{
    if index < pieces.len() && countable(pieces[index].category) {
        countable_run(pieces, index + 1)
    } else {
        index
    }
}

/// The start of the run of cardinals and digit sequences that `index` closes.
pub open spec fn countable_start(output: Seq<Piece>, index: int) -> int
    decreases index,
{
    if index > 0 && countable(output[index - 1].category) {
        countable_start(output, index - 1)
    } else {
        index
    }
}

/// The rendering of one member of an expression.
pub open spec fn member_text(expression: Seq<Piece>, index: int) -> Seq<char> {
    let item = expression[index];
    if item.source == "分之"@ {
        seq!['/']
    } else if sign(item.source) is Some {
        sign(item.source)->0
    } else if index > 0 && expression[index - 1].source == "点"@ {
        numeric::digits_of(item.source)
    } else {
        item.text
    }
}

/// The rendering of the first `count` members of an expression.
pub open spec fn expression_text(expression: Seq<Piece>, count: int) -> Seq<char>
    decreases count,
{
    if count <= 0 {
        Seq::empty()
    } else {
        expression_text(expression, count - 1) + member_text(expression, count - 1)
    }
}

/// A sign word that closes the number after it stands at `index`.
pub open spec fn trailing_rule(pieces: Seq<Piece>, index: int) -> bool {
    pieces[index].category == Some('C') && trailing_sign(pieces[index].source) is Some
        && countable_at(pieces, index + 1)
}

/// The piece that a sign word and the expression after it become.
pub open spec fn trailing_piece(pieces: Seq<Piece>, index: int) -> Piece {
    let expression = pieces.subrange(index + 1, category_run(pieces, index + 2));
    Piece {
        source: pieces[index].source + pieces::sources(expression),
        text: expression_text(expression, expression.len() as int) + trailing_sign(
            pieces[index].source,
        )->0,
        category: expression.last().category,
        kind: WordKind::Number,
    }
}

/// A fraction bar stands between two numbers.
pub open spec fn fraction_rule(pieces: Seq<Piece>, index: int, output: Seq<Piece>) -> bool {
    pieces[index].category == Some('C') && pieces[index].source == "分之"@ && last_countable(output)
        && countable_at(pieces, index + 1)
}

/// The output after a fraction: the numerator comes first. A denominator of one bare `万` is no
/// fraction.
pub open spec fn fraction_output(
    pieces: Seq<Piece>,
    index: int,
    output: Seq<Piece>,
) -> Seq<Piece> {
    let previous = output.last();
    let bar = pieces[index];
    let following = pieces[index + 1];
    if previous.source == "万"@ {
        output.drop_last().push(
            Piece {
                source: previous.source + bar.source + following.source,
                text: "万min之"@ + following.text,
                category: following.category,
                kind: WordKind::Number,
            },
        )
    } else {
        output.drop_last().push(
            Piece {
                source: previous.source,
                text: following.text,
                category: following.category,
                kind: WordKind::Number,
            },
        ).push(
            Piece {
                source: bar.source,
                text: seq!['/'],
                category: Some('C'),
                kind: WordKind::Number,
            },
        ).push(
            Piece {
                source: following.source,
                text: previous.text,
                category: previous.category,
                kind: WordKind::Number,
            },
        )
    }
}

/// The piece that a sign word becomes. Behind a text that ends in `不` it stays a word; a point
/// that does not stand between two numbers is plain text.
pub open spec fn sign_piece(pieces: Seq<Piece>, index: int, output: Seq<Piece>) -> Piece {
    let piece = pieces[index];
    if output.len() > 0 && numeric::ends_in(output.last().text, '不') {
        piece
    } else if piece.source == "点"@ && !(last_countable(output) && countable_at(
        pieces,
        index + 1,
    )) {
        Piece { category: None, kind: WordKind::Text, ..piece }
    } else {
        Piece { text: sign(piece.source)->0, kind: WordKind::Number, ..piece }
    }
}

/// A temperature unit.
pub open spec fn temperature_unit(source: Seq<char>) -> bool {
    source == "摄氏度"@ || source == "华氏度"@
}

/// Every character of the sources from `from` on is a zero.
pub open spec fn only_zeros(output: Seq<Piece>, from: int) -> bool {
    forall|index: int|
        from <= index < output.len() ==> all_zeros((#[trigger] output[index]).source)
}

/// Every character is a zero.
pub open spec fn all_zeros(source: Seq<char>) -> bool {
    forall|index: int|
        0 <= index < source.len() ==> numeric::digit(#[trigger] source[index]) == Some(0int)
}

/// Every source of `pieces[from..to]` is one character.
pub open spec fn singletons(pieces: Seq<Piece>, from: int, to: int) -> bool {
    forall|index: int| from <= index < to ==> (#[trigger] pieces[index]).source.len() == 1
}

/// A number that stands next to the number before it joins its digits.
pub open spec fn joins_digits(pieces: Seq<Piece>, index: int, output: Seq<Piece>) -> bool {
    let previous = output.last();
    let piece = pieces[index];
    let run_start = countable_start(output, output.len() - 1);
    let run_end = countable_run(pieces, index + 1);
    let after_point = run_start > 0 && output[run_start - 1].text == "."@;
    let decimal_zeros = previous.category == Some('A') && piece.category == Some('B')
        && after_point && only_zeros(output, run_start);
    let temperature_run = after_point && run_end < pieces.len() && temperature_unit(
        pieces[run_end].source,
    ) && singletons(output, run_start, output.len() as int) && singletons(
        pieces,
        index,
        run_end,
    );
    let temperature_cardinal = previous.category == Some('B') && piece.category == Some('A')
        && index + 1 < pieces.len() && temperature_unit(pieces[index + 1].source);
    numeric::sequence_digits(previous.source + piece.source) && (temperature_run || !(
    temperature_cardinal || (previous.category == Some('A') && piece.category == Some('B')
        && !decimal_zeros)))
}

/// A rendered time that a number next to it must be kept apart from.
pub open spec fn closed_time(piece: Piece) -> bool {
    piece.category == Some('D') && (piece.text != piece.source || all_features(piece.source) || (
    piece.source.len() > 0 && numeric::digit(piece.source.last()) is Some))
}

/// Every character can stand in a numeral.
pub open spec fn all_features(source: Seq<char>) -> bool {
    forall|index: int|
        0 <= index < source.len() ==> numeric::numeric_feature(#[trigger] source[index])
}

/// The rendering of a number behind a decimal point is its digits.
pub open spec fn after_point_text(piece: Piece, output: Seq<Piece>) -> Seq<char> {
    if output.len() > 0 && output.last().text == "."@ && countable(piece.category) {
        numeric::digits_of(piece.source)
    } else {
        piece.text
    }
}

/// The piece that a number or plain text becomes: a number that neither joins the digits before
/// it nor follows something else than a number or a time is set apart by a space.
pub open spec fn spaced_piece(pieces: Seq<Piece>, index: int, output: Seq<Piece>) -> Piece {
    let piece = pieces[index];
    let rendered = after_point_text(piece, output);
    let apart = countable(piece.category) && output.len() > 0 && (if countable(
        output.last().category,
    ) {
        !joins_digits(pieces, index, output)
    } else {
        closed_time(output.last())
    });
    Piece {
        text: if apart {
            seq![' '] + rendered
        } else {
            rendered
        },
        ..piece
    }
}

/// One step: the output after the pieces from `index` up to the returned position.
pub open spec fn semantic_step(
    pieces: Seq<Piece>,
    index: int,
    output: Seq<Piece>,
) -> (int, Seq<Piece>) {
    if trailing_rule(pieces, index) {
        (category_run(pieces, index + 2), output.push(trailing_piece(pieces, index)))
    } else if fraction_rule(pieces, index, output) {
        (index + 2, fraction_output(pieces, index, output))
    } else if pieces[index].category == Some('C') && sign(pieces[index].source) is Some {
        (index + 1, output.push(sign_piece(pieces, index, output)))
    } else {
        (index + 1, output.push(spaced_piece(pieces, index, output)))
    }
}

/// The output after all pieces from `index` on.
pub open spec fn semantics_from(
    pieces: Seq<Piece>,
    index: int,
    output: Seq<Piece>,
) -> Seq<Piece>
    decreases pieces.len() - index,
{
    if index < 0 || index >= pieces.len() {
        output
    } else {
        let (next, extended) = semantic_step(pieces, index, output);
        if next <= index || next > pieces.len() {
            output
        } else {
            semantics_from(pieces, next, extended)
        }
    }
}

/// The pieces with their arithmetic carried out.
pub open spec fn semantics(pieces: Seq<Piece>) -> Seq<Piece> {
    semantics_from(pieces, 0, Seq::empty())
}

proof fn lemma_category_run(pieces: Seq<Piece>, index: int)
    requires
        0 <= index <= pieces.len(),
    ensures
        index <= category_run(pieces, index) <= pieces.len(),
    decreases pieces.len() - index,
{
    if index < pieces.len() && pieces[index].category is Some {
        lemma_category_run(pieces, index + 1);
    }
}

proof fn lemma_sources_push(output: Seq<Piece>, piece: Piece)
    ensures
        pieces::sources(output.push(piece)) == pieces::sources(output) + piece.source,
{
    assert(output.push(piece).drop_last() =~= output);
}

proof fn lemma_step_sources(pieces: Seq<Piece>, index: int, output: Seq<Piece>)
    requires
        0 <= index < pieces.len(),
    ensures
        ({
            let (next, extended) = semantic_step(pieces, index, output);
            &&& index < next <= pieces.len()
            &&& pieces::sources(extended) == pieces::sources(output) + pieces::sources(
                pieces.subrange(index, next),
            )
        }),
{
    let (next, extended) = semantic_step(pieces, index, output);
    let piece = pieces[index];
    if trailing_rule(pieces, index) {
        lemma_category_run(pieces, index + 2);
        let expression = pieces.subrange(index + 1, next);
        assert(pieces.subrange(index, next) =~= seq![piece] + expression);
        pieces::lemma_sources_split(seq![piece], expression);
        pieces::lemma_sources_one(piece);
        lemma_sources_push(output, trailing_piece(pieces, index));
    } else if fraction_rule(pieces, index, output) {
        let following = pieces[index + 1];
        let previous = output.last();
        assert(pieces.subrange(index, next) =~= seq![piece].push(following));
        lemma_sources_push(seq![piece], following);
        pieces::lemma_sources_one(piece);
        assert(pieces::sources(output) == pieces::sources(output.drop_last()) + previous.source);
        if previous.source == "万"@ {
            lemma_sources_push(output.drop_last(), extended.last());
            assert(extended =~= output.drop_last().push(extended.last()));
        } else {
            let first = output.drop_last().push(extended[extended.len() - 3]);
            let second = first.push(extended[extended.len() - 2]);
            lemma_sources_push(output.drop_last(), extended[extended.len() - 3]);
            lemma_sources_push(first, extended[extended.len() - 2]);
            lemma_sources_push(second, extended.last());
            assert(extended =~= second.push(extended.last()));
        }
        assert(pieces::sources(extended) =~= pieces::sources(output) + pieces::sources(
            pieces.subrange(index, next),
        ));
    } else {
        assert(pieces.subrange(index, next) =~= seq![piece]);
        pieces::lemma_sources_one(piece);
        lemma_sources_push(output, extended.last());
        assert(extended =~= output.push(extended.last()));
    }
}

/// Carrying out the arithmetic keeps every source character in its place.
pub proof fn law_semantics_keep_the_source(pieces: Seq<Piece>, index: int, output: Seq<Piece>)
    requires
        0 <= index <= pieces.len(),
    ensures
        pieces::sources(semantics_from(pieces, index, output)) == pieces::sources(output)
            + pieces::sources(pieces.skip(index)),
    decreases pieces.len() - index,
{
    if index == pieces.len() {
        assert(pieces.skip(index).len() == 0);
        assert(pieces::sources(output) + pieces::sources(pieces.skip(index)) =~= pieces::sources(
            output,
        ));
    } else {
        let (next, extended) = semantic_step(pieces, index, output);
        lemma_step_sources(pieces, index, output);
        law_semantics_keep_the_source(pieces, next, extended);
        pieces::lemma_sources_split(pieces.subrange(index, next), pieces.skip(next));
        assert(pieces.subrange(index, next) + pieces.skip(next) =~= pieces.skip(index));
        assert(pieces::sources(semantics_from(pieces, index, output)) =~= pieces::sources(output)
            + pieces::sources(pieces.skip(index)));
    }
}

fn is_temperature_unit(source: &[char]) -> (result: bool)
    ensures
        result == temperature_unit(source@),
{
    is_text(source, "摄氏度") || is_text(source, "华氏度")
}

fn are_zeros(source: &[char]) -> (result: bool)
    ensures
        result == all_zeros(source@),
{
    for index in 0..source.len()
        invariant
            forall|earlier: int|
                0 <= earlier < index ==> numeric::digit(#[trigger] source@[earlier]) == Some(0int),
    {
        let zero: bool = match digit_value(source[index]) {
            Some(value) => value == 0,
            None => false,
        };
        if !zero {
            assert(numeric::digit(source@[index as int]) != Some(0int));
            return false;
        }
    }
    true
}

/// Decides whether every character can stand in a numeral.
pub fn are_features(source: &[char]) -> (result: bool)
    ensures
        result == all_features(source@),
{
    for index in 0..source.len()
        invariant
            forall|earlier: int|
                0 <= earlier < index ==> numeric::numeric_feature(#[trigger] source@[earlier]),
    {
        if !is_numeric_feature_character(source[index]) {
            assert(!numeric::numeric_feature(source@[index as int]));
            return false;
        }
    }
    true
}

fn holds_only_zeros(output: &[NumericPiece], from: usize) -> (result: bool)
    requires
        from <= output@.len(),
    ensures
        result == only_zeros(pieces::piece_views(output@), from as int),
{
    let ghost views = pieces::piece_views(output@);
    for index in from..output.len()
        invariant
            from <= output@.len(),
            views == pieces::piece_views(output@),
            forall|earlier: int|
                from <= earlier < index ==> all_zeros((#[trigger] views[earlier]).source),
    {
        if !are_zeros(&output[index].source) {
            assert(!all_zeros(views[index as int].source));
            return false;
        }
    }
    true
}

fn are_singletons(items: &[NumericPiece], from: usize, to: usize) -> (result: bool)
    requires
        from <= to <= items@.len(),
    ensures
        result == singletons(pieces::piece_views(items@), from as int, to as int),
{
    let ghost views = pieces::piece_views(items@);
    for index in from..to
        invariant
            from <= to <= items@.len(),
            views == pieces::piece_views(items@),
            forall|earlier: int|
                from <= earlier < index ==> (#[trigger] views[earlier]).source.len() == 1,
    {
        if items[index].source.len() != 1 {
            assert(views[index as int].source.len() != 1);
            return false;
        }
    }
    true
}

/// Decides whether the number at `index` joins the digits of the number before it.
fn number_joins(items: &[NumericPiece], index: usize, output: &[NumericPiece]) -> (result: bool)
    requires
        index < items@.len(),
        output@.len() > 0,
    ensures
        result == joins_digits(
            pieces::piece_views(items@),
            index as int,
            pieces::piece_views(output@),
        ),
{
    let ghost views = pieces::piece_views(items@);
    let ghost done = pieces::piece_views(output@);
    let last: usize = output.len() - 1;
    let mut run_start: usize = last;
    while run_start > 0 && is_countable(output[run_start - 1].category)
        invariant
            run_start <= last < output@.len(),
            done == pieces::piece_views(output@),
            countable_start(done, last as int) == countable_start(done, run_start as int),
        decreases run_start,
    {
        assert(done[run_start - 1].category == output@[run_start - 1].category);
        run_start = run_start - 1;
    }
    assert(run_start > 0 ==> done[run_start - 1].category == output@[run_start - 1].category);
    let count: usize = items.len();
    let mut run_end: usize = index + 1;
    while run_end < count && is_countable(items[run_end].category)
        invariant
            index < run_end <= items@.len(),
            count == items@.len(),
            views == pieces::piece_views(items@),
            countable_run(views, index + 1) == countable_run(views, run_end as int),
        decreases items@.len() - run_end,
    {
        assert(views[run_end as int].category == items@[run_end as int].category);
        run_end = run_end + 1;
    }
    assert(run_end < items@.len() ==> views[run_end as int].category
        == items@[run_end as int].category);
    let previous: &NumericPiece = &output[last];
    let piece: &NumericPiece = &items[index];
    assert(done.last() == previous@);
    assert(views[index as int] == piece@);
    let cardinal_first: bool = matches!(previous.category, Some('A')) && matches!(piece.category, Some('B'));
    let cardinal_second: bool = matches!(previous.category, Some('B')) && matches!(piece.category, Some('A'));
    let after_point: bool = run_start > 0 && is_text(&output[run_start - 1].text, ".");
    let decimal_zeros: bool = cardinal_first && after_point && holds_only_zeros(output, run_start);
    let temperature_run: bool = after_point && run_end < items.len() && is_temperature_unit(
        &items[run_end].source,
    ) && are_singletons(output, run_start, output.len()) && are_singletons(items, index, run_end);
    let temperature_cardinal: bool = cardinal_second && index + 1 < items.len()
        && is_temperature_unit(&items[index + 1].source);
    let mut adjacent: Vec<char> = part(&previous.source, 0, previous.source.len());
    push_chars(&mut adjacent, &piece.source);
    assert(adjacent@ =~= previous.source@ + piece.source@);
    are_sequence_digits(&adjacent) && (temperature_run || !(temperature_cardinal || (cardinal_first
        && !decimal_zeros)))
}

/// Renders an expression.
fn render_expression(items: &[NumericPiece], from: usize, to: usize) -> (rendered: Vec<char>)
    requires
        from <= to <= items@.len(),
    ensures
        rendered@ == expression_text(
            pieces::piece_views(items@).subrange(from as int, to as int),
            to - from,
        ),
{
    let ghost expression = pieces::piece_views(items@).subrange(from as int, to as int);
    let mut rendered: Vec<char> = Vec::new();
    for index in from..to
        invariant
            from <= to <= items@.len(),
            expression == pieces::piece_views(items@).subrange(from as int, to as int),
            rendered@ == expression_text(expression, index - from),
    {
        let item: &NumericPiece = &items[index];
        assert(expression[index - from] == item@);
        assert(index > from ==> expression[index - from - 1] == items@[index - 1]@);
        if is_text(&item.source, "分之") {
            rendered.push('/');
            assert(rendered@ =~= expression_text(expression, index - from) + seq!['/']);
        } else if let Some(value) = symbol(&item.source) {
            push_text(&mut rendered, value);
        } else if index > from && is_text(&items[index - 1].source, "点") {
            push_chars(&mut rendered, &digit_sequence(&item.source));
        } else {
            push_chars(&mut rendered, &item.text);
        }
    }
    rendered
}

/// Collects the sources of `items[from..to]`.
fn collect_sources(items: &[NumericPiece], from: usize, to: usize) -> (source: Vec<char>)
    requires
        from <= to <= items@.len(),
    ensures
        source@ == pieces::sources(pieces::piece_views(items@).subrange(from as int, to as int)),
{
    let ghost views = pieces::piece_views(items@);
    let mut source: Vec<char> = Vec::new();
    for index in from..to
        invariant
            from <= to <= items@.len(),
            views == pieces::piece_views(items@),
            source@ == pieces::sources(views.subrange(from as int, index as int)),
    {
        push_chars(&mut source, &items[index].source);
        assert(views.subrange(from as int, index + 1) =~= views.subrange(
            from as int,
            index as int,
        ).push(items@[index as int]@));
        proof {
            lemma_sources_push(views.subrange(from as int, index as int), items@[index as int]@);
        }
    }
    source
}

/// Appends a piece.
fn push_piece(
    output: &mut Vec<NumericPiece>,
    source: Vec<char>,
    rendered: Vec<char>,
    category: Option<char>,
    kind: WordKind,
)
    ensures
        pieces::piece_views(final(output)@) == pieces::piece_views(old(output)@).push(
            Piece { source: source@, text: rendered@, category, kind },
        ),
{
    output.push(NumericPiece { source, text: rendered, category, kind });
    assert(pieces::piece_views(output@) =~= pieces::piece_views(old(output)@).push(
        Piece { source: source@, text: rendered@, category, kind },
    ));
}

/// Appends the piece that a sign word and the expression after it become.
fn push_trailing(
    items: &[NumericPiece],
    index: usize,
    value: &str,
    output: &mut Vec<NumericPiece>,
) -> (end: usize)
    requires
        index + 1 < items@.len(),
        trailing_rule(pieces::piece_views(items@), index as int),
        trailing_sign(items@[index as int].source@) == Some(value@),
    ensures
        (end as int, pieces::piece_views(final(output)@)) == semantic_step(
            pieces::piece_views(items@),
            index as int,
            pieces::piece_views(old(output)@),
        ),
        index < end <= items@.len(),
{
    let ghost views = pieces::piece_views(items@);
    let count: usize = items.len();
    let mut end: usize = index + 2;
    while end < count && items[end].category.is_some()
        invariant
            index + 2 <= end <= items@.len(),
            count == items@.len(),
            views == pieces::piece_views(items@),
            category_run(views, index + 2) == category_run(views, end as int),
        decreases items@.len() - end,
    {
        assert(views[end as int].category == items@[end as int].category);
        end = end + 1;
    }
    assert(end < items@.len() ==> views[end as int].category == items@[end as int].category);
    let mut rendered: Vec<char> = render_expression(items, index + 1, end);
    push_text(&mut rendered, value);
    let mut source: Vec<char> = part(&items[index].source, 0, items[index].source.len());
    push_chars(&mut source, &collect_sources(items, index + 1, end));
    assert(source@ =~= views[index as int].source + pieces::sources(
        views.subrange(index + 1, end as int),
    ));
    assert(views.subrange(index + 1, end as int).last() == items@[end - 1]@);
    push_piece(output, source, rendered, items[end - 1].category, WordKind::Number);
    end
}

/// Replaces the last number and the fraction bar and number after it by the fraction.
fn push_fraction(items: &[NumericPiece], index: usize, output: &mut Vec<NumericPiece>)
    requires
        index + 1 < items@.len(),
        old(output)@.len() > 0,
    ensures
        pieces::piece_views(final(output)@) == fraction_output(
            pieces::piece_views(items@),
            index as int,
            pieces::piece_views(old(output)@),
        ),
{
    let ghost views = pieces::piece_views(items@);
    let ghost done = pieces::piece_views(output@);
    let bar: &NumericPiece = &items[index];
    let following: &NumericPiece = &items[index + 1];
    assert(views[index as int] == bar@);
    assert(views[index + 1] == following@);
    if let Some(previous) = output.pop() {
        assert(pieces::piece_views(output@) =~= done.drop_last());
        assert(previous@ == done.last());
        if is_text(&previous.source, "万") {
            let mut source: Vec<char> = previous.source;
            push_chars(&mut source, &bar.source);
            push_chars(&mut source, &following.source);
            assert(source@ =~= done.last().source + bar@.source + following@.source);
            let mut rendered: Vec<char> = chars_of("万min之");
            push_chars(&mut rendered, &following.text);
            push_piece(output, source, rendered, following.category, WordKind::Number);
        } else {
            let numerator: Vec<char> = part(&following.text, 0, following.text.len());
            let bar_source: Vec<char> = part(&bar.source, 0, bar.source.len());
            let following_source: Vec<char> = part(&following.source, 0, following.source.len());
            assert(numerator@ =~= following@.text);
            assert(bar_source@ =~= bar@.source);
            assert(following_source@ =~= following@.source);
            push_piece(
                output,
                previous.source,
                numerator,
                following.category,
                WordKind::Number,
            );
            let mut slash: Vec<char> = Vec::new();
            slash.push('/');
            assert(slash@ =~= seq!['/']);
            push_piece(output, bar_source, slash, Some('C'), WordKind::Number);
            push_piece(
                output,
                following_source,
                previous.text,
                previous.category,
                WordKind::Number,
            );
        }
    }
}

/// The piece that the sign word at `index` becomes.
fn make_sign_piece(
    items: &[NumericPiece],
    index: usize,
    value: &str,
    output: &[NumericPiece],
) -> (piece: NumericPiece)
    requires
        index < items@.len(),
        sign(items@[index as int].source@) == Some(value@),
    ensures
        piece@ == sign_piece(
            pieces::piece_views(items@),
            index as int,
            pieces::piece_views(output@),
        ),
{
    let mut piece: NumericPiece = items[index].clone();
    let denied: bool = if output.len() > 0 {
        let previous: &NumericPiece = &output[output.len() - 1];
        previous.text.len() > 0 && previous.text[previous.text.len() - 1] == '不'
    } else {
        false
    };
    if !denied {
        let between: bool = output.len() > 0 && is_countable(output[output.len() - 1].category)
            && index + 1 < items.len() && is_countable(items[index + 1].category);
        if is_text(&piece.source, "点") && !between {
            piece.category = None;
            piece.kind = WordKind::Text;
        } else {
            piece.text = chars_of(value);
            piece.kind = WordKind::Number;
        }
    }
    piece
}

/// The piece that a number or plain text at `index` becomes.
fn make_spaced_piece(
    items: &[NumericPiece],
    index: usize,
    output: &[NumericPiece],
) -> (piece: NumericPiece)
    requires
        index < items@.len(),
    ensures
        piece@ == spaced_piece(
            pieces::piece_views(items@),
            index as int,
            pieces::piece_views(output@),
        ),
{
    let mut piece: NumericPiece = items[index].clone();
    if !is_countable(piece.category) || output.len() == 0 {
        return piece;
    }
    let previous: &NumericPiece = &output[output.len() - 1];
    assert(previous@ == pieces::piece_views(output@).last());
    if is_text(&previous.text, ".") {
        piece.text = digit_sequence(&piece.source);
    }
    let apart: bool = if is_countable(previous.category) {
        !number_joins(items, index, output)
    } else {
        matches!(previous.category, Some('D')) && (!same_chars(&previous.text, &previous.source)
            || are_features(&previous.source) || (previous.source.len() > 0 && digit_value(
            previous.source[previous.source.len() - 1],
        ).is_some()))
    };
    if apart {
        piece.text = prepend(' ', &piece.text);
    }
    piece
}

/// Carries out the arithmetic among pieces.
pub fn apply_semantics(items: &[NumericPiece]) -> (output: Vec<NumericPiece>)
    ensures
        pieces::piece_views(output@) == semantics(pieces::piece_views(items@)),
{
    let ghost views = pieces::piece_views(items@);
    let mut output: Vec<NumericPiece> = Vec::new();
    let mut index: usize = 0;
    assert(pieces::piece_views(output@) =~= Seq::empty());
    while index < items.len()
        invariant
            index <= items@.len(),
            views == pieces::piece_views(items@),
            semantics_from(views, index as int, pieces::piece_views(output@)) == semantics(views),
        decreases items@.len() - index,
    {
        let ghost done = pieces::piece_views(output@);
        assert(views[index as int] == items@[index as int]@);
        assert(index + 1 < items@.len() ==> views[index + 1] == items@[index + 1]@);
        let special: bool = matches!(items[index].category, Some('C'));
        let followed: bool = index + 1 < items.len() && is_countable(items[index + 1].category);
        if special && followed {
            if let Some(value) = prefix_symbol(&items[index].source) {
                index = push_trailing(items, index, value, &mut output);
                continue;
            }
            if output.len() > 0 && is_countable(output[output.len() - 1].category) && is_text(
                &items[index].source,
                "分之",
            ) {
                push_fraction(items, index, &mut output);
                index = index + 2;
                continue;
            }
        }
        let piece: NumericPiece = if special {
            match symbol(&items[index].source) {
                Some(value) => make_sign_piece(items, index, value, &output),
                None => make_spaced_piece(items, index, &output),
            }
        } else {
            make_spaced_piece(items, index, &output)
        };
        output.push(piece);
        assert(pieces::piece_views(output@) =~= done.push(piece@));
        index = index + 1;
    }
    output
}

/// A rendered number and what it counts: a piece of a cardinal stands for the number that its source
/// names, and one of a digit sequence is the digits of its source.
pub open spec fn counts(rendering: Seq<char>, source: Seq<char>, category: char) -> bool {
    ||| category == 'A' && numeric::chinese_number(source) is Some && numeric::stands_for(
        rendering,
        source,
    )
    ||| category == 'B' && numeric::all_decimal(rendering) && rendering.len() == source.len()
        && numeric::positional(source, source.len() as int) == Some(
        numeric::digits_value(rendering) as nat,
    )
}

/// A numeral that a label of the category can mark.
pub open spec fn markable(source: Seq<char>, category: char) -> bool {
    source.len() > 0 && if category == 'A' {
        numeric::chinese_number(source) is Some
    } else {
        category == 'B' && numeric::sequence_digits(source)
    }
}

/// The one piece of a numeral counts it.
pub proof fn law_numerals_count(source: Seq<char>, category: char)
    requires
        markable(source, category),
    ensures
        pieces::span_pieces(source, category).len() == 1,
        ({
            let piece = pieces::span_pieces(source, category)[0];
            &&& piece.source == source
            &&& piece.category == Some(category)
            &&& piece.kind == WordKind::Number
            &&& counts(piece.text, source, category)
        }),
{
    if category == 'A' {
        numeric::law_cardinals_read_as_their_value(source);
    } else {
        assert forall|index: int| 0 <= index < source.len() implies numeric::digit(
            #[trigger] source[index],
        ) is Some by {
            assert(numeric::sequence_digit(source[index]));
        }
        numeric::law_digit_sequences_read_as_their_value(source);
    }
}

/// The pieces of three spans, each labelled with its category.
pub open spec fn labelled(
    first: Seq<char>,
    first_category: char,
    middle: Seq<char>,
    middle_category: char,
    last: Seq<char>,
    last_category: char,
) -> Seq<Piece> {
    pieces::converted(
        first + middle + last,
        pieces::span_labels(first_category, first.len()) + pieces::span_labels(
            middle_category,
            middle.len(),
        ) + pieces::span_labels(last_category, last.len()),
    )
}

proof fn lemma_labelled(
    first: Seq<char>,
    first_category: char,
    middle: Seq<char>,
    middle_category: char,
    last: Seq<char>,
    last_category: char,
)
    requires
        first.len() > 0,
        middle.len() > 0,
        pieces::label_category(first_category),
        pieces::label_category(middle_category),
        last.len() > 0 ==> pieces::label_category(last_category),
    ensures
        labelled(first, first_category, middle, middle_category, last, last_category)
            == pieces::span_pieces(first, first_category) + pieces::span_pieces(
            middle,
            middle_category,
        ) + if last.len() > 0 {
            pieces::span_pieces(last, last_category)
        } else {
            Seq::empty()
        },
{
    let characters = first + middle + last;
    let first_labels = pieces::span_labels(first_category, first.len());
    let middle_labels = pieces::span_labels(middle_category, middle.len());
    let last_labels = pieces::span_labels(last_category, last.len());
    let labels = first_labels + middle_labels + last_labels;
    let one = first.len() as int;
    let two = (first.len() + middle.len()) as int;
    let three = characters.len() as int;
    assert(characters.subrange(0, one) =~= first);
    assert(characters.subrange(one, two) =~= middle);
    assert(characters.subrange(two, three) =~= last);
    assert(labels.subrange(0, one) =~= first_labels);
    assert(labels.subrange(one, two) =~= middle_labels);
    assert(labels.subrange(two, three) =~= last_labels);
    pieces::law_labelled_spans_are_pieces(characters, labels, 0, one, first_category);
    pieces::law_labelled_spans_are_pieces(characters, labels, one, two, middle_category);
    if last.len() > 0 {
        pieces::law_labelled_spans_are_pieces(characters, labels, two, three, last_category);
    }
    assert(pieces::converted_from(characters, labels, three) =~= Seq::empty());
    assert(labelled(first, first_category, middle, middle_category, last, last_category)
        =~= pieces::span_pieces(first, first_category) + pieces::span_pieces(
        middle,
        middle_category,
    ) + if last.len() > 0 {
        pieces::span_pieces(last, last_category)
    } else {
        Seq::empty()
    });
}

proof fn lemma_three_texts(output: Seq<Piece>)
    requires
        output.len() == 3,
    ensures
        pieces::texts(output) == output[0].text + output[1].text + output[2].text,
{
    reveal_with_fuel(pieces::texts, 4);
    assert(output.drop_last().drop_last().drop_last() =~= Seq::empty());
    assert(pieces::texts(output) =~= output[0].text + output[1].text + output[2].text);
}

/// A fraction reads as its numerator over its denominator, though the denominator is spoken first:
/// before the slash stands what counts the numeral behind the fraction word, and behind it what
/// counts the one before. A bare `万` is no denominator.
pub proof fn law_fractions_read_as_numerator_over_denominator(
    denominator: Seq<char>,
    denominator_category: char,
    numerator: Seq<char>,
    numerator_category: char,
) -> (slash: int)
    requires
        markable(denominator, denominator_category),
        markable(numerator, numerator_category),
        denominator != "万"@,
    ensures
        ({
            let spoken = labelled(
                denominator,
                denominator_category,
                "分之"@,
                'C',
                numerator,
                numerator_category,
            );
            let written = pieces::texts(semantics(spoken));
            &&& 0 < slash < written.len()
            &&& written[slash] == '/'
            &&& counts(written.take(slash), numerator, numerator_category)
            &&& counts(written.skip(slash + 1), denominator, denominator_category)
        }),
{
    let spoken = labelled(
        denominator,
        denominator_category,
        "分之"@,
        'C',
        numerator,
        numerator_category,
    );
    reveal_strlit("分之");
    lemma_labelled(
        denominator,
        denominator_category,
        "分之"@,
        'C',
        numerator,
        numerator_category,
    );
    law_numerals_count(denominator, denominator_category);
    law_numerals_count(numerator, numerator_category);
    let first = pieces::span_pieces(denominator, denominator_category)[0];
    let last = pieces::span_pieces(numerator, numerator_category)[0];
    assert(spoken.len() == 3);
    assert(spoken[0] == first && spoken[2] == last);
    assert(spoken[1].source == "分之"@ && spoken[1].category == Some('C'));
    lemma_bar_is_no_sign();
    assert(semantic_step(spoken, 0, Seq::empty()) == (1int, Seq::empty().push(first)));
    let held = Seq::empty().push(first);
    assert(fraction_rule(spoken, 1, held));
    let output = fraction_output(spoken, 1, held);
    assert(held.drop_last() =~= Seq::empty());
    reveal_with_fuel(semantics_from, 4);
    assert(semantics(spoken) == output);
    assert(output.len() == 3);
    lemma_three_texts(output);
    let written = pieces::texts(output);
    let slash = last.text.len() as int;
    assert(written =~= last.text + seq!['/'] + first.text);
    assert(written.take(slash) =~= last.text);
    assert(written.skip(slash + 1) =~= first.text);
    slash
}

/// The fraction word closes no number behind it.
proof fn lemma_bar_is_no_sign()
    ensures
        trailing_sign("分之"@) is None,
        sign("分之"@) is None,
{
    reveal_strlit("分之");
    reveal_strlit("百分之");
    reveal_strlit("千分之");
    reveal_strlit("万分之");
    reveal_strlit("点");
    reveal_strlit("加");
    reveal_strlit("加上");
    reveal_strlit("减");
    reveal_strlit("减去");
    reveal_strlit("负");
    reveal_strlit("乘");
    reveal_strlit("乘以");
    reveal_strlit("除");
    reveal_strlit("除以");
    reveal_strlit("等于");
    reveal_strlit("大于");
    reveal_strlit("小于");
    reveal_strlit("比");
    reveal_strlit("摄氏度");
    reveal_strlit("华氏度");
    assert("分之"@[0] == '分');
    assert("加上"@[0] == '加');
    assert("减去"@[0] == '减');
    assert("乘以"@[0] == '乘');
    assert("除以"@[0] == '除');
    assert("等于"@[0] == '等');
    assert("大于"@[0] == '大');
    assert("小于"@[0] == '小');
}

/// A numeral is neither a sign word nor the fraction word.
proof fn lemma_numerals_are_no_signs(source: Seq<char>, category: char)
    requires
        markable(source, category),
    ensures
        sign(source) is None,
        source != "分之"@,
{
    assert(numeric::numeric_feature(source[0])) by {
        if category == 'A' {
            numeric::lemma_numerals_have_features(source);
        } else {
            assert(numeric::sequence_digit(source[0]));
        }
    }
    reveal_strlit("分之");
    reveal_strlit("点");
    reveal_strlit("加");
    reveal_strlit("加上");
    reveal_strlit("减");
    reveal_strlit("减去");
    reveal_strlit("负");
    reveal_strlit("乘");
    reveal_strlit("乘以");
    reveal_strlit("除");
    reveal_strlit("除以");
    reveal_strlit("等于");
    reveal_strlit("大于");
    reveal_strlit("小于");
    reveal_strlit("比");
    reveal_strlit("摄氏度");
    reveal_strlit("华氏度");
    assert("分之"@[0] == '分');
    assert("点"@[0] == '点');
    assert("加"@[0] == '加');
    assert("加上"@[0] == '加');
    assert("减"@[0] == '减');
    assert("减去"@[0] == '减');
    assert("负"@[0] == '负');
    assert("乘"@[0] == '乘');
    assert("乘以"@[0] == '乘');
    assert("除"@[0] == '除');
    assert("除以"@[0] == '除');
    assert("等于"@[0] == '等');
    assert("大于"@[0] == '大');
    assert("小于"@[0] == '小');
    assert("比"@[0] == '比');
    assert("摄氏度"@[0] == '摄');
    assert("华氏度"@[0] == '华');
}

/// Numbers on both sides of a sign word read as the first number, the sign and the second one.
pub proof fn law_signs_stand_between_their_numbers(
    left: Seq<char>,
    left_category: char,
    word: Seq<char>,
    right: Seq<char>,
    right_category: char,
)
    requires
        markable(left, left_category),
        markable(right, right_category),
        word.len() > 0,
        sign(word) is Some,
        word != "点"@,
        trailing_sign(word) is None,
    ensures
        ({
            let spoken = labelled(left, left_category, word, 'C', right, right_category);
            let written = pieces::texts(semantics(spoken));
            exists|first: Seq<char>, second: Seq<char>|
                {
                    &&& #[trigger] counts(first, left, left_category)
                    &&& #[trigger] counts(second, right, right_category)
                    &&& written == first + sign(word)->0 + second
                }
        }),
        word == "加"@ || word == "加上"@ ==> sign(word) == Some("+"@),
        word == "减"@ || word == "减去"@ ==> sign(word) == Some("-"@),
        word == "乘"@ || word == "乘以"@ ==> sign(word) == Some("×"@),
        word == "除"@ || word == "除以"@ ==> sign(word) == Some("÷"@),
        word == "等于"@ ==> sign(word) == Some("="@),
        word == "大于"@ ==> sign(word) == Some(">"@),
        word == "小于"@ ==> sign(word) == Some("<"@),
        word == "比"@ ==> sign(word) == Some(":"@),
{
    let spoken = labelled(left, left_category, word, 'C', right, right_category);
    law_numerals_count(left, left_category);
    law_numerals_count(right, right_category);
    lemma_labelled(left, left_category, word, 'C', right, right_category);
    let first = pieces::span_pieces(left, left_category)[0];
    let last = pieces::span_pieces(right, right_category)[0];
    lemma_bar_is_no_sign();
    lemma_sign_words_differ();
    assert(spoken.len() == 3);
    assert(spoken[0] == first && spoken[2] == last);
    assert(spoken[1].source == word && spoken[1].category == Some('C'));
    let held = Seq::empty().push(first);
    assert(semantic_step(spoken, 0, Seq::empty()) == (1int, held));
    lemma_counted_ends(first.text, left, left_category);
    let marked = held.push(sign_piece(spoken, 1, held));
    assert(semantic_step(spoken, 1, held) == (2int, marked));
    let output = marked.push(spaced_piece(spoken, 2, marked));
    assert(semantic_step(spoken, 2, marked) == (3int, output));
    reveal_with_fuel(semantics_from, 4);
    assert(semantics(spoken) == output);
    lemma_three_texts(output);
    assert(pieces::texts(output) == first.text + sign(word)->0 + last.text);
}

/// The sign words are different ones, and no sign of them is a point but one.
proof fn lemma_sign_words_differ()
    ensures
        "加"@ != "点"@ && "加上"@ != "点"@ && "减"@ != "点"@ && "减去"@ != "点"@,
        "乘"@ != "点"@ && "乘以"@ != "点"@ && "除"@ != "点"@ && "除以"@ != "点"@,
        forall|word: Seq<char>|
            (#[trigger] sign(word)) is Some && word != "点"@ ==> sign(word)->0 != "."@,
        sign("加"@) == Some("+"@) && sign("加上"@) == Some("+"@),
        sign("减"@) == Some("-"@) && sign("减去"@) == Some("-"@),
        sign("乘"@) == Some("×"@) && sign("乘以"@) == Some("×"@),
        sign("除"@) == Some("÷"@) && sign("除以"@) == Some("÷"@),
        sign("等于"@) == Some("="@),
        sign("大于"@) == Some(">"@),
        sign("小于"@) == Some("<"@),
        sign("比"@) == Some(":"@),
{
    reveal_strlit("点");
    reveal_strlit("加");
    reveal_strlit("加上");
    reveal_strlit("减");
    reveal_strlit("减去");
    reveal_strlit("负");
    reveal_strlit("乘");
    reveal_strlit("乘以");
    reveal_strlit("除");
    reveal_strlit("除以");
    reveal_strlit("等于");
    reveal_strlit("大于");
    reveal_strlit("小于");
    reveal_strlit("比");
    reveal_strlit(".");
    reveal_strlit("+");
    reveal_strlit("-");
    reveal_strlit("×");
    reveal_strlit("÷");
    reveal_strlit("=");
    reveal_strlit(">");
    reveal_strlit("<");
    reveal_strlit(":");
    reveal_strlit("℃");
    reveal_strlit("℉");
    assert("点"@[0] == '点');
    assert("加"@[0] == '加');
    assert("加上"@[0] == '加');
    assert("减"@[0] == '减');
    assert("减去"@[0] == '减');
    assert("负"@[0] == '负');
    assert("乘"@[0] == '乘');
    assert("乘以"@[0] == '乘');
    assert("除"@[0] == '除');
    assert("除以"@[0] == '除');
    assert("等于"@[0] == '等');
    assert("大于"@[0] == '大');
    assert("小于"@[0] == '小');
    assert("比"@[0] == '比');
    assert("."@[0] == '.');
    assert("+"@[0] == '+');
    assert("-"@[0] == '-');
    assert("×"@[0] == '×');
    assert("÷"@[0] == '÷');
    assert("="@[0] == '=');
    assert(">"@[0] == '>');
    assert("<"@[0] == '<');
    assert(":"@[0] == ':');
    assert("℃"@[0] == '℃');
    assert("℉"@[0] == '℉');
}

/// A share of a hundred, a thousand or ten thousand reads as its number with the sign behind it,
/// though the sign's word is spoken first.
pub proof fn law_shares_read_as_number_and_sign(
    word: Seq<char>,
    numeral: Seq<char>,
    category: char,
)
    requires
        trailing_sign(word) is Some,
        markable(numeral, category),
    ensures
        ({
            let spoken = labelled(word, 'C', numeral, category, Seq::empty(), category);
            let written = pieces::texts(semantics(spoken));
            let ending = trailing_sign(word)->0;
            &&& written.len() > ending.len()
            &&& counts(written.take(written.len() - ending.len()), numeral, category)
            &&& written.skip(written.len() - ending.len()) == ending
            &&& word == "百分之"@ ==> ending == "%"@
            &&& word == "千分之"@ ==> ending == "‰"@
            &&& word == "万分之"@ ==> ending == "/10000"@
        }),
{
    let spoken = labelled(word, 'C', numeral, category, Seq::empty(), category);
    law_numerals_count(numeral, category);
    lemma_numerals_are_no_signs(numeral, category);
    let piece = pieces::span_pieces(numeral, category)[0];
    reveal_strlit("百分之");
    reveal_strlit("千分之");
    reveal_strlit("万分之");
    assert("百分之"@[0] == '百');
    assert("千分之"@[0] == '千');
    assert("万分之"@[0] == '万');
    lemma_labelled(word, 'C', numeral, category, Seq::empty(), category);
    assert(spoken =~= pieces::span_pieces(word, 'C') + pieces::span_pieces(numeral, category));
    assert(spoken.len() == 2 && spoken[1] == piece);
    assert(trailing_rule(spoken, 0));
    assert(category_run(spoken, 2) == 2);
    let expression = spoken.subrange(1, 2);
    assert(expression =~= seq![piece]);
    reveal_with_fuel(expression_text, 2);
    assert(expression_text(expression, 1) =~= piece.text);
    reveal_with_fuel(semantics_from, 2);
    let output = Seq::empty().push(trailing_piece(spoken, 0));
    assert(semantics(spoken) == output);
    reveal_with_fuel(pieces::texts, 2);
    assert(output.drop_last() =~= Seq::empty());
    let ending = trailing_sign(word)->0;
    let written = pieces::texts(output);
    assert(written =~= piece.text + ending);
    assert(written.take(written.len() - ending.len()) =~= piece.text);
    assert(written.skip(written.len() - ending.len()) =~= ending);
    assert(piece.text.len() > 0);
}

/// A decimal number reads as its whole part, the point and the digits behind it, one for each digit
/// that is spoken.
pub proof fn law_decimals_read_as_whole_and_digits(
    whole: Seq<char>,
    category: char,
    decimals: Seq<char>,
) -> (point: int)
    requires
        markable(whole, category),
        markable(decimals, 'B'),
    ensures
        ({
            let spoken = labelled(whole, category, "点"@, 'C', decimals, 'B');
            let written = pieces::texts(semantics(spoken));
            &&& 0 < point < written.len()
            &&& written[point] == '.'
            &&& counts(written.take(point), whole, category)
            &&& counts(written.skip(point + 1), decimals, 'B')
        }),
{
    let spoken = labelled(whole, category, "点"@, 'C', decimals, 'B');
    law_numerals_count(whole, category);
    law_numerals_count(decimals, 'B');
    let first = pieces::span_pieces(whole, category)[0];
    let last = pieces::span_pieces(decimals, 'B')[0];
    reveal_strlit("点");
    reveal_strlit("分之");
    reveal_strlit("百分之");
    reveal_strlit("千分之");
    reveal_strlit("万分之");
    reveal_strlit(".");
    lemma_labelled(whole, category, "点"@, 'C', decimals, 'B');
    assert(spoken.len() == 3);
    assert(spoken[0] == first && spoken[2] == last);
    let held = Seq::empty().push(first);
    assert(semantic_step(spoken, 0, Seq::empty()) == (1int, held));
    assert(!numeric::ends_in(first.text, '不')) by {
        lemma_counted_ends(first.text, whole, category);
    }
    assert(spoken[1].source == "点"@);
    let marked = held.push(sign_piece(spoken, 1, held));
    assert(semantic_step(spoken, 1, held) == (2int, marked));
    assert(marked.last().text == "."@);
    assert(marked.last().category == Some('C'));
    assert(spaced_piece(spoken, 2, marked).text == last.text);
    let output = marked.push(spaced_piece(spoken, 2, marked));
    assert(semantic_step(spoken, 2, marked) == (3int, output));
    reveal_with_fuel(semantics_from, 4);
    assert(semantics(spoken) == output);
    lemma_three_texts(output);
    let written = pieces::texts(output);
    let point = first.text.len() as int;
    assert("."@ =~= seq!['.']);
    assert(written =~= first.text + seq!['.'] + last.text);
    assert(written.take(point) =~= first.text);
    assert(written.skip(point + 1) =~= last.text);
    assert(point > 0);
    point
}

/// What counts a numeral ends in a digit, a comma or a unit.
proof fn lemma_counted_ends(rendering: Seq<char>, source: Seq<char>, category: char)
    requires
        counts(rendering, source, category),
        markable(source, category),
    ensures
        rendering.len() > 0,
        rendering.last() != '不',
{
    let last = rendering.len() - 1;
    if category == 'A' {
        if numeric::keeps_unit(source) && numeric::chinese_number(
            numeric::coefficient(source),
        ) is Some {
        } else {
            assert(numeric::plain_number(rendering));
            assert(crate::text::is_ascii_digit(rendering[last]) || rendering[last] == ',');
        }
    } else {
        assert('0' <= rendering[last] <= '9');
    }
}

/// Two numbers next to each other run together where both are digits, unless a cardinal comes before
/// a sequence; otherwise a space parts them.
pub proof fn law_numbers_side_by_side(
    left: Seq<char>,
    left_category: char,
    right: Seq<char>,
    right_category: char,
)
    requires
        markable(left, left_category),
        markable(right, right_category),
    ensures
        ({
            let spoken = labelled(left, left_category, right, right_category, Seq::empty(), 'A');
            let written = pieces::texts(semantics(spoken));
            let together = numeric::sequence_digits(left + right) && !(left_category == 'A'
                && right_category == 'B');
            exists|first: Seq<char>, second: Seq<char>|
                {
                    &&& #[trigger] counts(first, left, left_category)
                    &&& #[trigger] counts(second, right, right_category)
                    &&& written == if together {
                        first + second
                    } else {
                        first + seq![' '] + second
                    }
                }
        }),
{
    let spoken = labelled(left, left_category, right, right_category, Seq::empty(), 'A');
    law_numerals_count(left, left_category);
    law_numerals_count(right, right_category);
    lemma_labelled(left, left_category, right, right_category, Seq::empty(), 'A');
    let first = pieces::span_pieces(left, left_category)[0];
    let second = pieces::span_pieces(right, right_category)[0];
    assert(spoken.len() == 2);
    assert(spoken[0] == first && spoken[1] == second);
    let held = Seq::empty().push(first);
    assert(semantic_step(spoken, 0, Seq::empty()) == (1int, held));
    assert(countable_start(held, 0) == 0);
    assert(countable_run(spoken, 2) == 2);
    lemma_counted_ends(first.text, left, left_category);
    reveal_strlit(".");
    assert("."@[0] == '.');
    assert(first.text != "."@) by {
        if first.text == "."@ {
            lemma_counted_is_no_point(first.text, left, left_category);
        }
    }
    let output = held.push(spaced_piece(spoken, 1, held));
    assert(semantic_step(spoken, 1, held) == (2int, output));
    reveal_with_fuel(semantics_from, 3);
    assert(semantics(spoken) == output);
    reveal_with_fuel(pieces::texts, 3);
    assert(output.drop_last().drop_last() =~= Seq::empty());
    assert(output.drop_last() =~= held);
    assert(pieces::texts(output) =~= first.text + output[1].text);
    assert(first.text + seq![' '] + second.text =~= first.text + (seq![' '] + second.text));
}

/// What counts a numeral is no point.
proof fn lemma_counted_is_no_point(rendering: Seq<char>, source: Seq<char>, category: char)
    requires
        counts(rendering, source, category),
        markable(source, category),
    ensures
        rendering[0] != '.',
        rendering.len() > 0,
{
    lemma_counted_ends(rendering, source, category);
    if category == 'A' {
        if numeric::keeps_unit(source) && numeric::chinese_number(
            numeric::coefficient(source),
        ) is Some {
            let before = rendering.drop_last();
            assert(crate::text::is_ascii_digit(before[0]) || before[0] == ',');
        } else {
            assert(crate::text::is_ascii_digit(rendering[0]) || rendering[0] == ',');
        }
    } else {
        assert('0' <= rendering[0] <= '9');
    }
}

}
