//! Inputs and outputs of the labelling models.

use vstd::prelude::*;

use crate::maplist::MapEntry;
use crate::types;
use crate::vocabulary;
use crate::vocabulary::Vocabulary;
use crate::wordpiece;
use crate::wordpiece::{LabelError, PieceSplitter, MAX_LENGTH};

verus! {

/// The names of the numeric labels.
pub open spec fn label_name(index: int) -> Seq<char> {
    if index == 0 { "O"@ } else if index == 1 { "SA"@ } else if index == 2 { "BA"@ } else if index
        == 3 { "MA"@ } else if index == 4 { "EA"@ } else if index == 5 { "SB"@ } else if index == 6 {
        "BB"@
    } else if index == 7 { "MB"@ } else if index == 8 { "EB"@ } else if index == 9 {
        "SC"@
    } else if index == 10 { "BC"@ } else if index == 11 { "MC"@ } else if index == 12 {
        "EC"@
    } else if index == 13 { "SD"@ } else if index == 14 { "BD"@ } else if index == 15 {
        "MD"@
    } else if index == 16 { "ED"@ } else if index == 17 { "E"@ } else {
        "<unk>"@
    }
}

/// How many numeric labels there are.
pub const NUMERIC_LABEL_COUNT: usize = 19;

/// The name of a numeric label.
pub fn numeric_label(index: usize) -> (name: &'static str)
    requires
        index < NUMERIC_LABEL_COUNT,
    ensures
        name@ == label_name(index as int),
{
    match index {
        0 => "O",
        1 => "SA",
        2 => "BA",
        3 => "MA",
        4 => "EA",
        5 => "SB",
        6 => "BB",
        7 => "MB",
        8 => "EB",
        9 => "SC",
        10 => "BC",
        11 => "MC",
        12 => "EC",
        13 => "SD",
        14 => "BD",
        15 => "MD",
        16 => "ED",
        17 => "E",
        _ => "<unk>",
    }
}

/// The last position of the greatest key; position zero where there are no keys.
pub open spec fn greatest_place(keys: Seq<u32>) -> int
    decreases keys.len(),
{
    if keys.len() <= 1 {
        0
    } else {
        let before = greatest_place(keys.drop_last());
        if keys.last() >= keys[before] {
            keys.len() - 1
        } else {
            before
        }
    }
}

/// No key is greater than the one at the greatest place, and no later one equals it.
pub proof fn law_greatest_place(keys: Seq<u32>)
    requires
        keys.len() > 0,
    ensures
        0 <= greatest_place(keys) < keys.len(),
        forall|other: int|
            0 <= other < keys.len() ==> #[trigger] keys[other] <= keys[greatest_place(keys)],
        forall|other: int|
            greatest_place(keys) < other < keys.len() ==> #[trigger] keys[other]
                < keys[greatest_place(keys)],
    decreases keys.len(),
{
    if keys.len() > 1 {
        law_greatest_place(keys.drop_last());
        assert forall|other: int| 0 <= other < keys.len() implies #[trigger] keys[other]
            <= keys[greatest_place(keys)] by {
            if other < keys.len() - 1 {
                assert(keys.drop_last()[other] == keys[other]);
            }
        }
        assert forall|other: int| greatest_place(keys) < other < keys.len() implies
        #[trigger] keys[other] < keys[greatest_place(keys)] by {
            if other < keys.len() - 1 {
                assert(keys.drop_last()[other] == keys[other]);
            }
        }
    }
}

/// The last position of the greatest key.
pub fn argmax(keys: &[u32]) -> (index: usize)
    ensures
        index == greatest_place(keys@),
        keys@.len() > 0 ==> index < keys@.len(),
{
    let mut best: usize = 0;
    for index in 0..keys.len()
        invariant
            best == greatest_place(keys@.take(index as int)),
            best < index || index == 0,
            index == 0 ==> best == 0,
    {
        assert(keys@.take(index + 1).drop_last() =~= keys@.take(index as int));
        if keys[index] >= keys[best] {
            best = index;
        }
    }
    assert(keys@.take(keys@.len() as int) =~= keys@);
    best
}

/// The place in total order of a binary32 number with the given bits: numbers compare as their
/// places do, negative zero before zero.
pub open spec fn total_place(bits: u32) -> u32 {
    if bits < 0x8000_0000 {
        (bits + 0x8000_0000) as u32
    } else {
        (0xffff_ffff - bits) as u32
    }
}

/// The place in total order of a binary32 number.
pub fn total_order(bits: u32) -> (place: u32)
    ensures
        place == total_place(bits),
{
    if bits < 0x8000_0000 {
        bits + 0x8000_0000
    } else {
        0xffff_ffff - bits
    }
}

/// No two numbers share a place.
pub proof fn law_total_order_is_injective(left: u32, right: u32)
    requires
        total_place(left) == total_place(right),
    ensures
        left == right,
{
}

/// Conversion labels by the greatest score of each row. A row holds the places of its scores.
pub fn numeric_labels(rows: &[Vec<u32>]) -> (labels: Vec<String>)
    requires
        forall|row: int|
            0 <= row < rows@.len() ==> (#[trigger] rows@[row])@.len() == NUMERIC_LABEL_COUNT,
    ensures
        labels@.len() == rows@.len(),
        forall|row: int|
            0 <= row < rows@.len() ==> (#[trigger] labels@[row])@ == label_name(
                greatest_place(rows@[row]@),
            ),
{
    let mut labels: Vec<String> = Vec::new();
    for row in 0..rows.len()
        invariant
            forall|at: int|
                0 <= at < rows@.len() ==> (#[trigger] rows@[at])@.len() == NUMERIC_LABEL_COUNT,
            labels@.len() == row,
            forall|at: int|
                0 <= at < row ==> (#[trigger] labels@[at])@ == label_name(
                    greatest_place(rows@[at]@),
                ),
    {
        let index: usize = argmax(&rows[row]);
        let name: String = numeric_label(index).to_owned();
        labels.push(name);
    }
    labels
}

/// The label of a token by the scores of its last piece: the greatest one, but a comma that a
/// missing mark comes close to is left out.
pub open spec fn token_label(keys: Seq<u32>, close: bool) -> int {
    if greatest_place(keys) == 1 && close {
        0
    } else {
        greatest_place(keys)
    }
}

/// The label of a token. `close` says that the score of no mark is more than six tenths of the
/// score of a comma.
pub fn punctuation_label(keys: &[u32], close: bool) -> (label: usize)
    ensures
        label == token_label(keys@, close),
{
    let greatest: usize = argmax(keys);
    if greatest == 1 && close {
        0
    } else {
        greatest
    }
}

/// The numbers of pieces.
pub open spec fn piece_ids(known: Map<Seq<char>, usize>, pieces: Seq<Seq<char>>) -> Seq<usize> {
    Seq::new(
        pieces.len(),
        |index: int| vocabulary::id_or(known, pieces[index], known["[UNK]"@]),
    )
}

/// The numbers of the start mark and the pieces of the first `count` tokens.
pub open spec fn input_ids(
    items: Seq<MapEntry>,
    known: Map<Seq<char>, usize>,
    tokens: Seq<Seq<char>>,
    count: int,
) -> Seq<usize>
    decreases count,
{
    if count <= 0 {
        seq![known["[CLS]"@]]
    } else {
        input_ids(items, known, tokens, count - 1) + piece_ids(
            known,
            wordpiece::token_pieces(items, known, tokens[count - 1]),
        )
    }
}

/// The input of the punctuation model.
#[derive(Debug)]
pub struct PunctuationInput {
    /// The numbers of the pieces between a start and an end mark.
    pub token_ids: Vec<usize>,
    /// The position of the last piece of each token.
    pub final_positions: Vec<usize>,
}

/// What the punctuation model is given for tokens.
pub open spec fn punctuation_ids(
    items: Seq<MapEntry>,
    known: Map<Seq<char>, usize>,
    tokens: Seq<Seq<char>>,
) -> Seq<usize> {
    input_ids(items, known, tokens, tokens.len() as int).push(known["[SEP]"@])
}

impl PieceSplitter {
    /// The numbers of the marks that the punctuation model needs are known.
    pub open spec fn has_marks(self) -> bool {
        vocabulary::punctuation_check(self.known()) is Ok
    }

    /// The input of the punctuation model for tokens; without tokens there is none.
    pub fn punctuation_input(&self, tokens: &[String]) -> (result: Result<
        Option<PunctuationInput>,
        LabelError,
    >)
        requires
            self.has_marks(),
        ensures
            ({
                let views = types::text_views(tokens@);
                let ids = punctuation_ids(self.fixed(), self.known(), views);
                match result {
                    Ok(None) => tokens@.len() == 0,
                    Ok(Some(input)) => tokens@.len() > 0 && ids.len() <= MAX_LENGTH
                        && input.token_ids@ == ids && input.final_positions@.len() == tokens@.len() && forall|index: int|
                        0 <= index < tokens@.len() ==> #[trigger] input.final_positions@[index]
                            == input_ids(self.fixed(), self.known(), views, index + 1).len() - 1,
                    Err(error) => tokens@.len() > 0 && ids.len() > MAX_LENGTH && error
                        == LabelError::InputTooLong,
                }
            }),
    {
        if tokens.len() == 0 {
            return Ok(None);
        }
        let ghost views = types::text_views(tokens@);
        let start: usize = self.mark_id("[CLS]");
        let separator: usize = self.mark_id("[SEP]");
        let unknown: usize = self.mark_id("[UNK]");
        let mut token_ids: Vec<usize> = Vec::new();
        let mut final_positions: Vec<usize> = Vec::new();
        token_ids.push(start);
        assert(token_ids@ =~= input_ids(self.fixed(), self.known(), views, 0));
        for index in 0..tokens.len()
            invariant
                views == types::text_views(tokens@),
                unknown == self.known()["[UNK]"@],
                token_ids@ == input_ids(self.fixed(), self.known(), views, index as int),
                token_ids@.len() > 0,
                final_positions@.len() == index,
                forall|earlier: int|
                    0 <= earlier < index ==> #[trigger] final_positions@[earlier] == input_ids(
                        self.fixed(),
                        self.known(),
                        views,
                        earlier + 1,
                    ).len() - 1,
        {
            let pieces: Vec<String> = self.wordpiece(tokens[index].as_str());
            let ghost before = token_ids@;
            let ghost ids = piece_ids(self.known(), types::text_views(pieces@));
            for piece in 0..pieces.len()
                invariant
                    unknown == self.known()["[UNK]"@],
                    ids == piece_ids(self.known(), types::text_views(pieces@)),
                    token_ids@ == before + ids.take(piece as int),
            {
                token_ids.push(self.piece_id(pieces[piece].as_str(), unknown));
                assert(ids.take(piece + 1) =~= ids.take(piece as int).push(ids[piece as int]));
            }
            assert(ids.take(pieces@.len() as int) =~= ids);
            final_positions.push(token_ids.len() - 1);
        }
        token_ids.push(separator);
        assert(token_ids@ =~= punctuation_ids(self.fixed(), self.known(), views));
        if token_ids.len() > MAX_LENGTH {
            return Err(LabelError::InputTooLong);
        }
        Ok(Some(PunctuationInput { token_ids, final_positions }))
    }
}

/// The number of one token for the numeric model.
pub open spec fn numeric_id(known: Map<Seq<char>, usize>, token: Seq<char>) -> usize {
    vocabulary::id_or(known, token, known["<unk>"@])
}

/// The numbers of the characters for the numeric model, with the shape of its input checked; without
/// characters there are none.
pub fn numeric_input(
    vocabulary: &Vocabulary,
    characters: &[char],
    feature_count: usize,
) -> (result: Result<Option<Vec<usize>>, LabelError>)
    requires
        vocabulary.ids().contains_key("<unk>"@),
    ensures
        match result {
            Ok(None) => characters@.len() == 0,
            Ok(Some(ids)) => 0 < characters@.len() <= MAX_LENGTH && feature_count == 2 * characters@.len()
                && ids@.len() == characters@.len() && forall|index: int|
                0 <= index < characters@.len() ==> #[trigger] ids@[index] == numeric_id(
                    vocabulary.ids(),
                    seq![characters@[index]],
                ),
            Err(error) => characters@.len() > 0 && error == LabelError::InputShape && (
            characters@.len() > MAX_LENGTH || feature_count != 2 * characters@.len()),
        },
{
    let count: usize = characters.len();
    if count == 0 {
        return Ok(None);
    }
    if count > MAX_LENGTH || feature_count != 2 * count {
        return Err(LabelError::InputShape);
    }
    let unknown: usize = match vocabulary.id("<unk>") {
        Some(id) => id,
        None => 0,
    };
    let mut ids: Vec<usize> = Vec::new();
    for index in 0..count
        invariant
            count == characters@.len(),
            unknown == vocabulary.ids()["<unk>"@],
            ids@.len() == index,
            forall|earlier: int|
                0 <= earlier < index ==> #[trigger] ids@[earlier] == numeric_id(
                    vocabulary.ids(),
                    seq![characters@[earlier]],
                ),
    {
        let mut token: String = String::new();
        token.push(characters[index]);
        assert(token@ =~= seq![characters@[index as int]]);
        ids.push(vocabulary.id_or(token.as_str(), unknown));
    }
    Ok(Some(ids))
}

/// The ranges of at most `MAX_LENGTH` characters that the numeric model labels in turn.
pub fn plan_numeric(count: usize) -> (ranges: Vec<(usize, usize)>)
    ensures
        ranges@.len() == (count + MAX_LENGTH - 1) / MAX_LENGTH as int,
        forall|index: int|
            0 <= index < ranges@.len() ==> (#[trigger] ranges@[index]).0 == index * MAX_LENGTH
                && ranges@[index].1 == (if (index + 1) * MAX_LENGTH < count {
                (index + 1) * MAX_LENGTH
            } else {
                count as int
            }),
{
    let mut ranges: Vec<(usize, usize)> = Vec::new();
    let mut start: usize = 0;
    while start < count
        invariant
            start == (if ranges@.len() * MAX_LENGTH < count {
                ranges@.len() * MAX_LENGTH
            } else {
                count as int
            }),
            start < count ==> start == ranges@.len() * MAX_LENGTH,
            start == count ==> ranges@.len() == (count + MAX_LENGTH - 1) / MAX_LENGTH as int,
            forall|index: int|
                0 <= index < ranges@.len() ==> (#[trigger] ranges@[index]).0 == index * MAX_LENGTH
                    && ranges@[index].1 == (if (index + 1) * MAX_LENGTH < count {
                    (index + 1) * MAX_LENGTH
                } else {
                    count as int
                }),
        decreases count - start,
    {
        let end: usize = if count - start > MAX_LENGTH {
            start + MAX_LENGTH
        } else {
            count
        };
        ranges.push((start, end));
        start = end;
    }
    ranges
}

/// How many pieces `counts[from..to]` are.
pub open spec fn piece_total(counts: Seq<usize>, from: int, to: int) -> int
    decreases to - from,
{
    if to <= from {
        0
    } else {
        piece_total(counts, from, to - 1) + counts[to - 1]
    }
}

/// The most pieces of tokens that fit between a start and an end mark.
pub const CONTENT_LIMIT: usize = 510;

/// The ranges after the tokens from `index` on, where the open range began with token `start`: a
/// range is closed before the token that would overfill it.
pub open spec fn ranges_from(
    counts: Seq<usize>,
    index: int,
    start: int,
    ranges: Seq<(int, int)>,
) -> Result<Seq<(int, int)>, LabelError>
    decreases counts.len() - index,
{
    if index >= counts.len() {
        if start < index {
            Ok(ranges.push((start, index)))
        } else {
            Ok(ranges)
        }
    } else if counts[index] > CONTENT_LIMIT {
        Err(LabelError::TokenTooLong)
    } else if start < index && piece_total(counts, start, index) + counts[index] > CONTENT_LIMIT {
        ranges_from(counts, index + 1, index, ranges.push((start, index)))
    } else {
        ranges_from(counts, index + 1, start, ranges)
    }
}

/// The ranges of tokens that the punctuation model labels in turn.
pub open spec fn token_ranges(counts: Seq<usize>) -> Result<Seq<(int, int)>, LabelError> {
    ranges_from(counts, 0, 0, Seq::empty())
}

/// Ranges follow each other from `0` to `end`, each with at least one token and few enough pieces.
pub open spec fn ranges_cover(counts: Seq<usize>, ranges: Seq<(int, int)>, end: int) -> bool {
    &&& forall|index: int|
        0 <= index < ranges.len() ==> 0 <= (#[trigger] ranges[index]).0 < ranges[index].1
            <= counts.len() && piece_total(counts, ranges[index].0, ranges[index].1)
            <= CONTENT_LIMIT
    &&& forall|index: int|
        0 <= index < ranges.len() - 1 ==> (#[trigger] ranges[index]).1 == ranges[index + 1].0
    &&& if ranges.len() == 0 {
        end == 0
    } else {
        ranges[0].0 == 0 && ranges.last().1 == end
    }
}

proof fn lemma_ranges_cover(
    counts: Seq<usize>,
    index: int,
    start: int,
    ranges: Seq<(int, int)>,
)
    requires
        0 <= start <= index <= counts.len(),
        start < index || index == 0,
        ranges_cover(counts, ranges, start),
        piece_total(counts, start, index) <= CONTENT_LIMIT,
    ensures
        ranges_from(counts, index, start, ranges) matches Ok(all) ==> ranges_cover(
            counts,
            all,
            counts.len() as int,
        ),
    decreases counts.len() - index,
{
    if index < counts.len() && counts[index] <= CONTENT_LIMIT {
        if start < index && piece_total(counts, start, index) + counts[index] > CONTENT_LIMIT {
            reveal_with_fuel(piece_total, 2);
            lemma_ranges_cover(counts, index + 1, index, ranges.push((start, index)));
        } else {
            lemma_ranges_cover(counts, index + 1, start, ranges);
        }
    }
}

/// The ranges of tokens cover all tokens in order, and none is too long for the model.
pub proof fn law_ranges_cover_the_tokens(counts: Seq<usize>)
    ensures
        token_ranges(counts) matches Ok(ranges) ==> ranges_cover(
            counts,
            ranges,
            counts.len() as int,
        ),
{
    lemma_ranges_cover(counts, 0, 0, Seq::empty());
}

/// The views of ranges.
pub open spec fn range_views(ranges: Seq<(usize, usize)>) -> Seq<(int, int)> {
    Seq::new(ranges.len(), |index: int| (ranges[index].0 as int, ranges[index].1 as int))
}

/// Plans the ranges of tokens that the punctuation model labels in turn.
pub fn plan_punctuation(counts: &[usize]) -> (result: Result<Vec<(usize, usize)>, LabelError>)
    ensures
        match result {
            Ok(ranges) => token_ranges(counts@) == Ok::<Seq<(int, int)>, LabelError>(
                range_views(ranges@),
            ),
            Err(error) => token_ranges(counts@) == Err::<Seq<(int, int)>, LabelError>(error),
        },
{
    let mut ranges: Vec<(usize, usize)> = Vec::new();
    let mut start: usize = 0;
    let mut filled: usize = 0;
    let mut index: usize = 0;
    assert(range_views(ranges@) =~= Seq::empty());
    while index < counts.len()
        invariant
            start <= index <= counts@.len(),
            filled == piece_total(counts@, start as int, index as int),
            filled <= CONTENT_LIMIT,
            token_ranges(counts@) == ranges_from(
                counts@,
                index as int,
                start as int,
                range_views(ranges@),
            ),
        decreases counts@.len() - index,
    {
        let ghost before = range_views(ranges@);
        let count: usize = counts[index];
        if count > CONTENT_LIMIT {
            return Err(LabelError::TokenTooLong);
        }
        if start < index && filled + count > CONTENT_LIMIT {
            ranges.push((start, index));
            assert(range_views(ranges@) =~= before.push((start as int, index as int)));
            start = index;
            filled = 0;
        }
        proof {
            reveal_with_fuel(piece_total, 2);
        }
        filled = filled + count;
        index = index + 1;
    }
    let ghost before = range_views(ranges@);
    if start < index {
        ranges.push((start, index));
        assert(range_views(ranges@) =~= before.push((start as int, index as int)));
    }
    Ok(ranges)
}

proof fn lemma_ranges_are_full(
    counts: Seq<usize>,
    index: int,
    start: int,
    ranges: Seq<(int, int)>,
)
    requires
        0 <= start <= index <= counts.len(),
        start < index || ranges.len() == 0,
        ranges_from(counts, index, start, ranges) is Ok,
        ranges.len() > 0 ==> ranges.last().1 == start && piece_total(
            counts,
            ranges.last().0,
            ranges.last().1,
        ) + counts[start] > CONTENT_LIMIT,
        forall|at: int|
            0 <= at < ranges.len() - 1 ==> piece_total(
                counts,
                (#[trigger] ranges[at]).0,
                ranges[at].1,
            ) + counts[ranges[at].1] > CONTENT_LIMIT,
    ensures
        ({
            let all = ranges_from(counts, index, start, ranges)->Ok_0;
            forall|at: int|
                0 <= at < all.len() - 1 ==> piece_total(
                    counts,
                    (#[trigger] all[at]).0,
                    all[at].1,
                ) + counts[all[at].1] > CONTENT_LIMIT
        }),
    decreases counts.len() - index,
{
    if index >= counts.len() {
        if start < index {
            let all = ranges.push((start, index));
            assert forall|at: int| 0 <= at < all.len() - 1 implies piece_total(
                counts,
                (#[trigger] all[at]).0,
                all[at].1,
            ) + counts[all[at].1] > CONTENT_LIMIT by {
                assert(all[at] == ranges[at]);
            }
        }
    } else if start < index && piece_total(counts, start, index) + counts[index] > CONTENT_LIMIT {
        let more = ranges.push((start, index));
        assert forall|at: int| 0 <= at < more.len() - 1 implies piece_total(
            counts,
            (#[trigger] more[at]).0,
            more[at].1,
        ) + counts[more[at].1] > CONTENT_LIMIT by {
            assert(more[at] == ranges[at]);
        }
        lemma_ranges_are_full(counts, index + 1, index, more);
    } else {
        lemma_ranges_are_full(counts, index + 1, start, ranges);
    }
}

/// Ranges are as long as they can be: no range but the last one would hold the token after it too.
pub proof fn law_ranges_are_full(counts: Seq<usize>)
    requires
        token_ranges(counts) is Ok,
    ensures
        ({
            let ranges = token_ranges(counts)->Ok_0;
            forall|at: int|
                0 <= at < ranges.len() - 1 ==> piece_total(
                    counts,
                    (#[trigger] ranges[at]).0,
                    ranges[at].1,
                ) + counts[ranges[at].1] > CONTENT_LIMIT
        }),
{
    lemma_ranges_are_full(counts, 0, 0, Seq::empty());
}

/// The numeric labels count over four categories, and in each over the places in a group: alone, at
/// its beginning, in its middle and at its end.
pub proof fn law_labels_are_place_and_category(category: int, place: int)
    requires
        0 <= category < 4,
        0 <= place < 4,
    ensures
        label_name(1 + 4 * category + place) == seq![
            seq!['S', 'B', 'M', 'E'][place],
            seq!['A', 'B', 'C', 'D'][category],
        ],
{
    reveal_strlit("SA");
    reveal_strlit("BA");
    reveal_strlit("MA");
    reveal_strlit("EA");
    reveal_strlit("SB");
    reveal_strlit("BB");
    reveal_strlit("MB");
    reveal_strlit("EB");
    reveal_strlit("SC");
    reveal_strlit("BC");
    reveal_strlit("MC");
    reveal_strlit("EC");
    reveal_strlit("SD");
    reveal_strlit("BD");
    reveal_strlit("MD");
    reveal_strlit("ED");
    let index = 1 + 4 * category + place;
    assert(label_name(index) =~= seq![
        seq!['S', 'B', 'M', 'E'][place],
        seq!['A', 'B', 'C', 'D'][category],
    ]);
}

/// Keys stand as their numbers do: negative ones before the others, among those greater bits later,
/// and among negative ones greater bits earlier.
pub proof fn law_keys_stand_as_numbers(left: u32, right: u32)
    ensures
        left >= 0x8000_0000 && right < 0x8000_0000 ==> total_place(left) < total_place(right),
        left < 0x8000_0000 && right < 0x8000_0000 ==> (total_place(left) < total_place(right)) == (
        left < right),
        left >= 0x8000_0000 && right >= 0x8000_0000 ==> (total_place(left) < total_place(right))
            == (right < left),
{
}

/// What the punctuation model is given begins with the start mark, ends with the end mark, and holds
/// in between the pieces of each token behind those of the tokens before it.
pub proof fn law_inputs_hold_the_pieces_in_order(
    items: Seq<MapEntry>,
    known: Map<Seq<char>, usize>,
    tokens: Seq<Seq<char>>,
    index: int,
)
    requires
        0 <= index < tokens.len(),
    ensures
        ({
            let ids = punctuation_ids(items, known, tokens);
            let before = input_ids(items, known, tokens, index);
            let own = piece_ids(known, wordpiece::token_pieces(items, known, tokens[index]));
            &&& ids.len() >= before.len() + own.len() + 1
            &&& ids[0] == known["[CLS]"@]
            &&& ids.last() == known["[SEP]"@]
            &&& ids.subrange(before.len() as int, (before.len() + own.len()) as int) == own
        }),
{
    let count = tokens.len() as int;
    let all = input_ids(items, known, tokens, count);
    let before = input_ids(items, known, tokens, index);
    let next = input_ids(items, known, tokens, index + 1);
    let own = piece_ids(known, wordpiece::token_pieces(items, known, tokens[index]));
    lemma_input_prefix(items, known, tokens, index + 1, count);
    lemma_input_prefix(items, known, tokens, 0, count);
    let ids = all.push(known["[SEP]"@]);
    assert(all.take(1)[0] == all[0]);
    assert forall|at: int| 0 <= at < own.len() implies ids[before.len() + at] == own[at] by {
        assert(next[before.len() + at] == own[at]);
        assert(all.take(next.len() as int)[before.len() + at] == all[before.len() + at]);
    }
    assert(ids.subrange(before.len() as int, (before.len() + own.len()) as int) =~= own);
}

proof fn lemma_input_prefix(
    items: Seq<MapEntry>,
    known: Map<Seq<char>, usize>,
    tokens: Seq<Seq<char>>,
    low: int,
    high: int,
)
    requires
        0 <= low <= high <= tokens.len(),
    ensures
        input_ids(items, known, tokens, low).len() <= input_ids(items, known, tokens, high).len(),
        input_ids(items, known, tokens, high).take(
            input_ids(items, known, tokens, low).len() as int,
        ) == input_ids(items, known, tokens, low),
    decreases high - low,
{
    let low_ids = input_ids(items, known, tokens, low);
    let high_ids = input_ids(items, known, tokens, high);
    if low < high {
        lemma_input_prefix(items, known, tokens, low, high - 1);
        let before = input_ids(items, known, tokens, high - 1);
        assert forall|at: int| 0 <= at < low_ids.len() implies high_ids[at] == low_ids[at] by {
            assert(before.take(low_ids.len() as int)[at] == before[at]);
        }
    }
    assert(high_ids.take(low_ids.len() as int) =~= low_ids);
}

}
