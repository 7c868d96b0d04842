//! Token vocabularies of the postprocessing models.

use vstd::hash_map::StringHashMap;
use vstd::prelude::*;

use crate::text;
use crate::text::{chars_of, split_lines, string_of};

verus! {

/// Why a vocabulary is refused.
#[derive(Clone, Copy, Debug, PartialEq, Eq, Structural)]
pub enum VocabularyError {
    /// The numeric vocabulary has no `<unk>`.
    MissingUnknown,
    /// The numeric vocabulary and the embedding differ in rows.
    RowMismatch,
    /// The punctuation vocabulary has no `[CLS]`.
    MissingStart,
    /// The punctuation vocabulary has no `[SEP]`.
    MissingSeparator,
    /// The punctuation vocabulary has no `[UNK]`.
    MissingUnknownPiece,
}

/// The number of each of the first `count` lines; of equal lines the last one counts.
pub open spec fn line_ids(lines: Seq<Seq<char>>, count: int) -> Map<Seq<char>, usize>
    decreases count,
{
    if count <= 0 {
        Map::empty()
    } else {
        line_ids(lines, count - 1).insert(lines[count - 1], (count - 1) as usize)
    }
}

/// Every number lies below the count of lines and names the line it belongs to.
pub proof fn law_ids_name_their_lines(lines: Seq<Seq<char>>, count: int)
    requires
        0 <= count <= lines.len(),
        count <= usize::MAX,
    ensures
        forall|token: Seq<char>| #[trigger]
            line_ids(lines, count).contains_key(token) ==> line_ids(lines, count)[token] < count
                && lines[line_ids(lines, count)[token] as int] == token,
        forall|index: int|
            0 <= index < count ==> line_ids(lines, count).contains_key(#[trigger] lines[index]),
    decreases count,
{
    if count > 0 {
        law_ids_name_their_lines(lines, count - 1);
        let before = line_ids(lines, count - 1);
        assert forall|token: Seq<char>| #[trigger] line_ids(lines, count).contains_key(
            token,
        ) implies line_ids(lines, count)[token] < count && lines[line_ids(
            lines,
            count,
        )[token] as int] == token by {
            if token != lines[count - 1] {
                assert(before.contains_key(token));
            }
        }
    }
}

/// The tokens of a model with their numbers.
pub struct Vocabulary {
    ids: StringHashMap<usize>,
    size: usize,
}

impl Vocabulary {
    /// The number of each token.
    pub closed spec fn ids(self) -> Map<Seq<char>, usize> {
        self.ids@
    }

    /// How many lines the vocabulary has.
    pub closed spec fn size(self) -> nat {
        self.size as nat
    }

    /// The vocabulary with one token per line.
    pub fn parse(content: &str) -> (vocabulary: Self)
        ensures
            vocabulary.size() == text::lines(content@).len(),
            vocabulary.ids() == line_ids(
                text::lines(content@),
                text::lines(content@).len() as int,
            ),
    {
        let lines: Vec<Vec<char>> = split_lines(&chars_of(content));
        let ghost views = text::char_views(lines@);
        let mut ids: StringHashMap<usize> = StringHashMap::new();
        for index in 0..lines.len()
            invariant
                views == text::char_views(lines@),
                ids@ == line_ids(views, index as int),
        {
            ids.insert(string_of(&lines[index]), index);
        }
        Vocabulary { ids, size: lines.len() }
    }

    /// The number of a token.
    pub fn id(&self, token: &str) -> (id: Option<usize>)
        ensures
            match id {
                Some(id) => self.ids().contains_key(token@) && id == self.ids()[token@],
                None => !self.ids().contains_key(token@),
            },
    {
        match self.ids.get(token) {
            Some(id) => Some(*id),
            None => None,
        }
    }

    /// Decides whether a token has a number.
    pub fn contains(&self, token: &str) -> (result: bool)
        ensures
            result == self.ids().contains_key(token@),
    {
        self.ids.contains_key(token)
    }

    /// The number of a token, or of the stand-in for unknown ones.
    pub fn id_or(&self, token: &str, unknown: usize) -> (id: usize)
        ensures
            id == id_or(self.ids(), token@, unknown),
    {
        match self.ids.get(token) {
            Some(id) => *id,
            None => unknown,
        }
    }

    /// Checks a numeric vocabulary against the rows of its embedding.
    pub fn check_numeric(&self, embedding_rows: Option<usize>) -> (result: Result<
        (),
        VocabularyError,
    >)
        ensures
            result == numeric_check(self.ids(), self.size(), embedding_rows),
    {
        if !self.ids.contains_key("<unk>") {
            return Err(VocabularyError::MissingUnknown);
        }
        match embedding_rows {
            Some(rows) => if rows == self.size {
                Ok(())
            } else {
                Err(VocabularyError::RowMismatch)
            },
            None => Err(VocabularyError::RowMismatch),
        }
    }

    /// Checks a punctuation vocabulary.
    pub fn check_punctuation(&self) -> (result: Result<(), VocabularyError>)
        ensures
            result == punctuation_check(self.ids()),
    {
        if !self.ids.contains_key("[CLS]") {
            Err(VocabularyError::MissingStart)
        } else if !self.ids.contains_key("[SEP]") {
            Err(VocabularyError::MissingSeparator)
        } else if !self.ids.contains_key("[UNK]") {
            Err(VocabularyError::MissingUnknownPiece)
        } else {
            Ok(())
        }
    }
}

/// The number of a token, or of the stand-in for unknown ones.
pub open spec fn id_or(ids: Map<Seq<char>, usize>, token: Seq<char>, unknown: usize) -> usize {
    if ids.contains_key(token) {
        ids[token]
    } else {
        unknown
    }
}

/// What the check of a numeric vocabulary gives.
pub open spec fn numeric_check(
    ids: Map<Seq<char>, usize>,
    size: nat,
    embedding_rows: Option<usize>,
) -> Result<(), VocabularyError> {
    if !ids.contains_key("<unk>"@) {
        Err(VocabularyError::MissingUnknown)
    } else if embedding_rows is Some && embedding_rows->0 == size {
        Ok(())
    } else {
        Err(VocabularyError::RowMismatch)
    }
}

/// What the check of a punctuation vocabulary gives.
pub open spec fn punctuation_check(ids: Map<Seq<char>, usize>) -> Result<(), VocabularyError> {
    if !ids.contains_key("[CLS]"@) {
        Err(VocabularyError::MissingStart)
    } else if !ids.contains_key("[SEP]"@) {
        Err(VocabularyError::MissingSeparator)
    } else if !ids.contains_key("[UNK]"@) {
        Err(VocabularyError::MissingUnknownPiece)
    } else {
        Ok(())
    }
}

}
