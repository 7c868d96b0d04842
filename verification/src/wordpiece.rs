//! Pieces of tokens and the inputs of the labelling models.

use vstd::prelude::*;

use crate::maplist;
use crate::maplist::{MapEntry, PunctuationMap};
use crate::text::{chars_of, is_whitespace, part, push_chars, string_of};
use crate::types;
use crate::vocabulary;
use crate::vocabulary::Vocabulary;

verus! {

/// The most pieces that a labelling model takes at once.
pub const MAX_LENGTH: usize = 512;

/// Why tokens cannot be labelled.
#[derive(Clone, Copy, Debug, PartialEq, Eq, Structural)]
pub enum LabelError {
    /// One token has more pieces than the punctuation model takes.
    TokenTooLong,
    /// The tokens have more pieces than the punctuation model takes.
    InputTooLong,
    /// The numeric model's input has too many tokens, or not two features for each.
    InputShape,
}

/// The code points that stand for themselves as pieces.
pub open spec fn ideograph_code(code: u32) -> bool {
    ||| 0x3400 <= code <= 0x4DBF
    ||| 0x4E00 <= code <= 0x9FFF
    ||| 0xF900 <= code <= 0xFAFF
    ||| 0x20000 <= code <= 0x2A6DF
    ||| 0x2A700 <= code <= 0x2B73F
    ||| 0x2B740 <= code <= 0x2B81F
    ||| 0x2B820 <= code <= 0x2CEAF
    ||| 0x2F800 <= code <= 0x2FA1F
}

#[verifier::allow_in_spec]
pub fn is_ideograph(character: char) -> bool
    returns
        ideograph_code(character as u32),
{
    let code: u32 = character as u32;
    (0x3400 <= code && code <= 0x4DBF) || (0x4E00 <= code && code <= 0x9FFF) || (0xF900 <= code
        && code <= 0xFAFF) || (0x20000 <= code && code <= 0x2A6DF) || (0x2A700 <= code && code
        <= 0x2B73F) || (0x2B740 <= code && code <= 0x2B81F) || (0x2B820 <= code && code
        <= 0x2CEAF) || (0x2F800 <= code && code <= 0x2FA1F)
}

/// The piece for `content[start..end]`; one that does not begin a word is marked.
pub open spec fn candidate(content: Seq<char>, start: int, end: int) -> Seq<char> {
    if start > 0 {
        seq!['@', '@'] + content.subrange(start, end)
    } else {
        content.subrange(start, end)
    }
}

/// The end, at most `end`, of the longest known piece that begins at `start`.
pub open spec fn longest_piece(
    known: Map<Seq<char>, usize>,
    content: Seq<char>,
    start: int,
    end: int,
) -> Option<int>
    decreases end - start,
{
    if end <= start {
        None
    } else if known.contains_key(candidate(content, start, end)) {
        Some(end)
    } else {
        longest_piece(known, content, start, end - 1)
    }
}

/// The longest known pieces from `start` on, one after another; `None` where none is known.
pub open spec fn greedy_from(
    known: Map<Seq<char>, usize>,
    content: Seq<char>,
    start: int,
) -> Option<Seq<Seq<char>>>
    decreases content.len() - start,
{
    if start >= content.len() {
        Some(Seq::empty())
    } else {
        match longest_piece(known, content, start, content.len() as int) {
            None => None,
            Some(end) => if end <= start || end > content.len() {
                None
            } else {
                match greedy_from(known, content, end) {
                    None => None,
                    Some(rest) => Some(seq![candidate(content, start, end)] + rest),
                }
            },
        }
    }
}

/// The stand-in for a word without known pieces.
pub open spec fn unknown_piece() -> Seq<Seq<char>> {
    seq!["[UNK]"@]
}

/// The known pieces of a word.
pub open spec fn greedy(known: Map<Seq<char>, usize>, content: Seq<char>) -> Seq<Seq<char>> {
    if known.contains_key(content) {
        seq![content]
    } else {
        match greedy_from(known, content, 0) {
            Some(pieces) => pieces,
            None => unknown_piece(),
        }
    }
}

/// The pieces of a run of characters: what the list fixes, or else the known ones.
pub open spec fn run_pieces(
    items: Seq<MapEntry>,
    known: Map<Seq<char>, usize>,
    content: Seq<char>,
) -> Seq<Seq<char>> {
    if content.len() == 0 {
        Seq::empty()
    } else {
        match maplist::mapped(items, content) {
            Some(pieces) => pieces,
            None => greedy(known, content),
        }
    }
}

/// The pieces of a token from `index` on, where the open run began at `begin`: an ideograph is a
/// run of its own, and white space ends a run.
pub open spec fn pieces_from(
    items: Seq<MapEntry>,
    known: Map<Seq<char>, usize>,
    token: Seq<char>,
    begin: int,
    index: int,
) -> Seq<Seq<char>>
    decreases token.len() - index,
{
    if index >= token.len() {
        run_pieces(items, known, token.subrange(begin, token.len() as int))
    } else if is_ideograph(token[index]) {
        run_pieces(items, known, token.subrange(begin, index)) + run_pieces(
            items,
            known,
            token.subrange(index, index + 1),
        ) + pieces_from(items, known, token, index + 1, index + 1)
    } else if is_whitespace(token[index]) {
        run_pieces(items, known, token.subrange(begin, index)) + pieces_from(
            items,
            known,
            token,
            index + 1,
            index + 1,
        )
    } else {
        pieces_from(items, known, token, begin, index + 1)
    }
}

/// The pieces of a token.
pub open spec fn token_pieces(
    items: Seq<MapEntry>,
    known: Map<Seq<char>, usize>,
    token: Seq<char>,
) -> Seq<Seq<char>> {
    match maplist::mapped(items, token) {
        Some(pieces) => pieces,
        None => {
            let pieces = pieces_from(items, known, token, 0, 0);
            if pieces.len() == 0 {
                unknown_piece()
            } else {
                pieces
            }
        },
    }
}

/// One string.
fn one_text(content: &[char]) -> (result: Vec<String>)
    ensures
        types::text_views(result@) == seq![content@],
{
    let mut result: Vec<String> = Vec::new();
    result.push(string_of(content));
    assert(types::text_views(result@) =~= seq![content@]);
    result
}

/// The stand-in for a word without known pieces.
fn make_unknown_piece() -> (result: Vec<String>)
    ensures
        types::text_views(result@) == unknown_piece(),
{
    one_text(&chars_of("[UNK]"))
}

/// Appends strings.
fn append_texts(output: &mut Vec<String>, tail: Vec<String>)
    ensures
        types::text_views(final(output)@) == types::text_views(old(output)@) + types::text_views(
            tail@,
        ),
{
    let mut rest: Vec<String> = tail;
    let ghost before = output@;
    output.append(&mut rest);
    assert(types::text_views(output@) =~= types::text_views(before) + types::text_views(tail@));
}

/// Splits words into the pieces of a vocabulary.
pub struct PieceSplitter {
    vocabulary: Vocabulary,
    maplist: PunctuationMap,
}

impl PieceSplitter {
    /// The known pieces with their numbers.
    pub closed spec fn known(self) -> Map<Seq<char>, usize> {
        self.vocabulary.ids()
    }

    /// The words whose pieces are fixed.
    pub closed spec fn fixed(self) -> Seq<MapEntry> {
        self.maplist.entries()
    }

    pub fn new(vocabulary: Vocabulary, maplist: PunctuationMap) -> (splitter: Self)
        ensures
            splitter.known() == vocabulary.ids(),
            splitter.fixed() == maplist.entries(),
    {
        PieceSplitter { vocabulary, maplist }
    }

    /// The longest known piece of `content[start..]`.
    fn find_longest(&self, content: &[char], start: usize) -> (found: Option<(Vec<char>, usize)>)
        requires
            start < content@.len(),
        ensures
            match found {
                Some((piece, end)) => longest_piece(
                    self.known(),
                    content@,
                    start as int,
                    content@.len() as int,
                ) == Some(end as int) && start < end <= content@.len() && piece@ == candidate(
                    content@,
                    start as int,
                    end as int,
                ),
                None => longest_piece(
                    self.known(),
                    content@,
                    start as int,
                    content@.len() as int,
                ) is None,
            },
    {
        let mut end: usize = content.len();
        while end > start
            invariant
                start < content@.len(),
                start <= end <= content@.len(),
                longest_piece(self.known(), content@, start as int, content@.len() as int)
                    == longest_piece(self.known(), content@, start as int, end as int),
            decreases end - start,
        {
            let mut piece: Vec<char> = Vec::new();
            if start > 0 {
                piece.push('@');
                piece.push('@');
            }
            push_chars(&mut piece, &part(content, start, end));
            assert(piece@ =~= candidate(content@, start as int, end as int));
            if self.vocabulary.contains(string_of(&piece).as_str()) {
                return Some((piece, end));
            }
            end = end - 1;
        }
        None
    }

    /// The known pieces of a word.
    pub fn greedy_wordpiece(&self, content: &[char]) -> (pieces: Vec<String>)
        ensures
            types::text_views(pieces@) == greedy(self.known(), content@),
    {
        if self.vocabulary.contains(string_of(content).as_str()) {
            return one_text(content);
        }
        let mut pieces: Vec<String> = Vec::new();
        let mut start: usize = 0;
        let ghost whole = greedy_from(self.known(), content@, 0);
        assert(types::text_views(pieces@) =~= Seq::empty());
        proof {
            if whole is Some {
                assert(types::text_views(pieces@) + whole->0 =~= whole->0);
            }
        }
        while start < content.len()
            invariant
                start <= content@.len(),
                whole == greedy_from(self.known(), content@, 0),
                !self.known().contains_key(content@),
                match greedy_from(self.known(), content@, start as int) {
                    Some(rest) => whole == Some(types::text_views(pieces@) + rest),
                    None => whole is None,
                },
            decreases content@.len() - start,
        {
            let ghost before = types::text_views(pieces@);
            match self.find_longest(content, start) {
                None => {
                    return make_unknown_piece();
                },
                Some((piece, end)) => {
                    pieces.push(string_of(&piece));
                    assert(types::text_views(pieces@) =~= before.push(piece@));
                    proof {
                        if let Some(rest) = greedy_from(self.known(), content@, end as int) {
                            assert(before + (seq![piece@] + rest) =~= types::text_views(pieces@)
                                + rest);
                        }
                    }
                    start = end;
                },
            }
        }
        assert(types::text_views(pieces@) + Seq::<Seq<char>>::empty() =~= types::text_views(
            pieces@,
        ));
        pieces
    }

    /// Appends the pieces of a run of characters.
    fn push_run(&self, pieces: &mut Vec<String>, content: &[char])
        ensures
            types::text_views(final(pieces)@) == types::text_views(old(pieces)@) + run_pieces(
                self.fixed(),
                self.known(),
                content@,
            ),
    {
        if content.len() == 0 {
            assert(types::text_views(pieces@) + Seq::<Seq<char>>::empty() =~= types::text_views(
                pieces@,
            ));
            return;
        }
        match self.maplist.lookup(string_of(content).as_str()) {
            Some(mapped) => append_texts(pieces, mapped),
            None => append_texts(pieces, self.greedy_wordpiece(content)),
        }
    }

    /// The pieces of a token.
    pub fn wordpiece(&self, token: &str) -> (pieces: Vec<String>)
        ensures
            types::text_views(pieces@) == token_pieces(self.fixed(), self.known(), token@),
    {
        if let Some(mapped) = self.maplist.lookup(token) {
            return mapped;
        }
        let content: Vec<char> = chars_of(token);
        let ghost whole = pieces_from(self.fixed(), self.known(), token@, 0, 0);
        let mut pieces: Vec<String> = Vec::new();
        let mut begin: usize = 0;
        let mut index: usize = 0;
        assert(types::text_views(pieces@) + whole =~= whole);
        while index < content.len()
            invariant
                content@ == token@,
                begin <= index <= content@.len(),
                whole == types::text_views(pieces@) + pieces_from(
                    self.fixed(),
                    self.known(),
                    token@,
                    begin as int,
                    index as int,
                ),
            decreases content@.len() - index,
        {
            let ghost before = types::text_views(pieces@);
            if is_ideograph(content[index]) {
                self.push_run(&mut pieces, &part(&content, begin, index));
                self.push_run(&mut pieces, &part(&content, index, index + 1));
                assert(types::text_views(pieces@) + pieces_from(
                    self.fixed(),
                    self.known(),
                    token@,
                    index + 1,
                    index + 1,
                ) =~= before + pieces_from(
                    self.fixed(),
                    self.known(),
                    token@,
                    begin as int,
                    index as int,
                ));
                begin = index + 1;
            } else if is_whitespace(content[index]) {
                self.push_run(&mut pieces, &part(&content, begin, index));
                assert(types::text_views(pieces@) + pieces_from(
                    self.fixed(),
                    self.known(),
                    token@,
                    index + 1,
                    index + 1,
                ) =~= before + pieces_from(
                    self.fixed(),
                    self.known(),
                    token@,
                    begin as int,
                    index as int,
                ));
                begin = index + 1;
            }
            index = index + 1;
        }
        self.push_run(&mut pieces, &part(&content, begin, content.len()));
        assert(types::text_views(pieces@).len() == pieces@.len());
        if pieces.len() == 0 {
            make_unknown_piece()
        } else {
            pieces
        }
    }

    /// The number of a piece, or of the stand-in for unknown ones.
    pub fn piece_id(&self, piece: &str, unknown: usize) -> (id: usize)
        ensures
            id == vocabulary::id_or(self.known(), piece@, unknown),
    {
        self.vocabulary.id_or(piece, unknown)
    }

    /// The number of a mark that the vocabulary holds.
    pub fn mark_id(&self, mark: &str) -> (id: usize)
        requires
            self.known().contains_key(mark@),
        ensures
            id == self.known()[mark@],
    {
        self.vocabulary.id_or(mark, 0)
    }
}

proof fn lemma_longest_piece(
    known: Map<Seq<char>, usize>,
    content: Seq<char>,
    start: int,
    end: int,
)
    requires
        0 <= start <= end <= content.len(),
    ensures
        match longest_piece(known, content, start, end) {
            Some(found) => start < found <= end && known.contains_key(
                candidate(content, start, found),
            ) && forall|longer: int|
                found < longer <= end ==> !known.contains_key(
                    #[trigger] candidate(content, start, longer),
                ),
            None => forall|other: int|
                start < other <= end ==> !known.contains_key(
                    #[trigger] candidate(content, start, other),
                ),
        },
    decreases end - start,
{
    if start < end && !known.contains_key(candidate(content, start, end)) {
        lemma_longest_piece(known, content, start, end - 1);
    }
}

/// Where a piece begins in the content that pieces from `start` on make up, if each but the first
/// piece of a word has a mark of two characters.
pub open spec fn begin_of(pieces: Seq<Seq<char>>, start: int, index: int) -> int
    decreases index,
{
    if index <= 0 {
        start
    } else {
        let before = begin_of(pieces, start, index - 1);
        before + pieces[index - 1].len() - if before > 0 {
            2int
        } else {
            0
        }
    }
}

proof fn lemma_begin_of(pieces: Seq<Seq<char>>, first: Seq<char>, start: int, end: int, index: int)
    requires
        0 <= index <= pieces.len(),
        end == start + first.len() - if start > 0 {
            2int
        } else {
            0
        },
    ensures
        begin_of(seq![first] + pieces, start, index + 1) == begin_of(pieces, end, index),
    decreases index,
{
    let all = seq![first] + pieces;
    if index > 0 {
        lemma_begin_of(pieces, first, start, end, index - 1);
        assert(all[index] == pieces[index - 1]);
    } else {
        assert(begin_of(all, start, 0) == start);
        assert(all[0] == first);
    }
}

/// The pieces of a word are known, follow each other without a gap from the word's start to its end,
/// and each is the longest known one at its place.
pub proof fn law_pieces_make_up_the_word(
    known: Map<Seq<char>, usize>,
    content: Seq<char>,
    start: int,
)
    requires
        0 <= start <= content.len(),
        greedy_from(known, content, start) is Some,
    ensures
        ({
            let pieces = greedy_from(known, content, start)->0;
            &&& begin_of(pieces, start, pieces.len() as int) == content.len()
            &&& forall|index: int|
                0 <= index < pieces.len() ==> {
                    let begin = begin_of(pieces, start, index);
                    let end = begin_of(pieces, start, index + 1);
                    &&& start <= begin < end <= content.len()
                    &&& known.contains_key(#[trigger] pieces[index])
                    &&& pieces[index] == candidate(content, begin, end)
                    &&& forall|longer: int|
                        end < longer <= content.len() ==> !known.contains_key(
                            #[trigger] candidate(content, begin, longer),
                        )
                }
        }),
    decreases content.len() - start,
{
    if start < content.len() {
        lemma_longest_piece(known, content, start, content.len() as int);
        let end = longest_piece(known, content, start, content.len() as int)->0;
        law_pieces_make_up_the_word(known, content, end);
        let first = candidate(content, start, end);
        let rest = greedy_from(known, content, end)->0;
        let pieces = greedy_from(known, content, start)->0;
        assert(pieces == seq![first] + rest);
        lemma_begin_of(rest, first, start, end, rest.len() as int);
        assert forall|index: int| 0 <= index < pieces.len() implies {
            let begin = begin_of(pieces, start, index);
            let finish = begin_of(pieces, start, index + 1);
            &&& start <= begin < finish <= content.len()
            &&& known.contains_key(#[trigger] pieces[index])
            &&& pieces[index] == candidate(content, begin, finish)
            &&& forall|longer: int|
                finish < longer <= content.len() ==> !known.contains_key(
                    #[trigger] candidate(content, begin, longer),
                )
        } by {
            lemma_begin_of(rest, first, start, end, 0);
            lemma_begin_of(rest, first, start, end, index);
            if index > 0 {
                lemma_begin_of(rest, first, start, end, index - 1);
                assert(pieces[index] == rest[index - 1]);
            } else {
                assert(begin_of(pieces, start, 0) == start);
                assert(pieces[0] == first);
                assert(begin_of(rest, end, 0) == end);
            }
        }
    }
}

/// A word that begins with no known piece is unknown.
pub proof fn law_words_without_pieces_are_unknown(
    known: Map<Seq<char>, usize>,
    content: Seq<char>,
)
    requires
        content.len() > 0,
        forall|end: int|
            0 < end <= content.len() ==> !known.contains_key(
                #[trigger] content.subrange(0, end),
            ),
    ensures
        greedy(known, content) == seq!["[UNK]"@],
{
    lemma_longest_piece(known, content, 0, content.len() as int);
    assert(content.subrange(0, content.len() as int) =~= content);
    if longest_piece(known, content, 0, content.len() as int) is Some {
        let end = longest_piece(known, content, 0, content.len() as int)->0;
        assert(candidate(content, 0, end) == content.subrange(0, end));
    }
}

/// A token is parted at ideographs and white space: what stands before the first of them is a run of
/// its own, an ideograph is one too, white space is none, and the rest is parted in the same way.
pub proof fn law_ideographs_and_spaces_part_tokens(
    items: Seq<MapEntry>,
    known: Map<Seq<char>, usize>,
    token: Seq<char>,
    begin: int,
    index: int,
    at: int,
)
    requires
        0 <= begin <= index <= at < token.len(),
        forall|earlier: int|
            index <= earlier < at ==> !is_ideograph(#[trigger] token[earlier]) && !is_whitespace(
                token[earlier],
            ),
        is_ideograph(token[at]) || is_whitespace(token[at]),
    ensures
        is_ideograph(token[at]) ==> pieces_from(items, known, token, begin, index) == run_pieces(
            items,
            known,
            token.subrange(begin, at),
        ) + run_pieces(items, known, seq![token[at]]) + pieces_from(
            items,
            known,
            token,
            at + 1,
            at + 1,
        ),
        !is_ideograph(token[at]) ==> pieces_from(items, known, token, begin, index) == run_pieces(
            items,
            known,
            token.subrange(begin, at),
        ) + pieces_from(items, known, token, at + 1, at + 1),
    decreases at - index,
{
    if index < at {
        law_ideographs_and_spaces_part_tokens(items, known, token, begin, index + 1, at);
    } else {
        assert(token.subrange(at, at + 1) =~= seq![token[at]]);
    }
}

}
