//! Words of a rendered transcript.

use vstd::prelude::*;

use crate::text::{push_text, string_of};

verus! {

/// What a rendered word is made of.
#[derive(Clone, Copy, Debug, PartialEq, Eq, Structural)]
pub enum WordKind {
    Text,
    Number,
    Punctuation,
}

impl Default for WordKind {
    fn default() -> (kind: Self)
        ensures
            kind == WordKind::Text,
    {
        WordKind::Text
    }
}

/// A word of the finished transcript.
#[derive(Debug)]
pub struct ProcessedWord {
    pub text: String,
    pub kind: WordKind,
}

/// A word together with the number of source characters up to its end.
#[derive(Debug)]
pub struct RenderedWord {
    pub word: ProcessedWord,
    pub source_end: usize,
}

/// The view of a [`ProcessedWord`].
#[verifier::ext_equal]
pub struct Word {
    pub text: Seq<char>,
    pub kind: WordKind,
}

/// The view of a [`RenderedWord`].
#[verifier::ext_equal]
pub struct Rendered {
    pub text: Seq<char>,
    pub kind: WordKind,
    pub source_end: nat,
}

impl View for ProcessedWord {
    type V = Word;

    open spec fn view(&self) -> Word {
        Word { text: self.text@, kind: self.kind }
    }
}

impl View for RenderedWord {
    type V = Rendered;

    open spec fn view(&self) -> Rendered {
        Rendered {
            text: self.word.text@,
            kind: self.word.kind,
            source_end: self.source_end as nat,
        }
    }
}

/// The views of a sequence of processed words.
pub open spec fn word_views(words: Seq<ProcessedWord>) -> Seq<Word> {
    Seq::new(words.len(), |index: int| words[index]@)
}

/// The views of a sequence of rendered words.
pub open spec fn rendered_views(words: Seq<RenderedWord>) -> Seq<Rendered> {
    Seq::new(words.len(), |index: int| words[index]@)
}

/// The views of a sequence of strings.
pub open spec fn text_views(texts: Seq<String>) -> Seq<Seq<char>> {
    Seq::new(texts.len(), |index: int| texts[index]@)
}

impl ProcessedWord {
    pub fn new(text: &str, kind: WordKind) -> (word: Self)
        ensures
            word@ == (Word { text: text@, kind }),
    {
        ProcessedWord { text: text.to_owned(), kind }
    }
}

impl RenderedWord {
    pub fn new(text: &str, kind: WordKind, source_end: usize) -> (word: Self)
        ensures
            word@ == (Rendered { text: text@, kind, source_end: source_end as nat }),
    {
        RenderedWord { word: ProcessedWord::new(text, kind), source_end }
    }

    pub fn from_chars(text: &[char], kind: WordKind, source_end: usize) -> (word: Self)
        ensures
            word@ == (Rendered { text: text@, kind, source_end: source_end as nat }),
    {
        RenderedWord { word: ProcessedWord { text: string_of(text), kind }, source_end }
    }
}

impl Clone for ProcessedWord {
    fn clone(&self) -> (copy: Self)
        ensures
            copy@ == self@,
    {
        ProcessedWord { text: self.text.clone(), kind: self.kind }
    }
}

impl Clone for RenderedWord {
    fn clone(&self) -> (copy: Self)
        ensures
            copy@ == self@,
    {
        RenderedWord { word: self.word.clone(), source_end: self.source_end }
    }
}

impl Default for ProcessedWord {
    fn default() -> (word: Self)
        ensures
            word@ == (Word { text: Seq::empty(), kind: WordKind::Text }),
    {
        ProcessedWord { text: String::new(), kind: WordKind::Text }
    }
}

impl Default for RenderedWord {
    fn default() -> (word: Self)
        ensures
            word@ == (Rendered { text: Seq::empty(), kind: WordKind::Text, source_end: 0 }),
    {
        RenderedWord { word: ProcessedWord::default(), source_end: 0 }
    }
}

/// A copy of a slice of rendered words.
pub fn copy_words(words: &[RenderedWord]) -> (copy: Vec<RenderedWord>)
    ensures
        rendered_views(copy@) == rendered_views(words@),
{
    let mut copy: Vec<RenderedWord> = Vec::new();
    for index in 0..words.len()
        invariant
            copy.len() == index,
            forall|earlier: int| 0 <= earlier < index ==> (#[trigger] copy[earlier])@ == words[earlier]@,
    {
        copy.push(words[index].clone());
    }
    assert(rendered_views(copy@) =~= rendered_views(words@));
    copy
}

/// The texts of rendered words, one after another.
pub open spec fn joined(words: Seq<Rendered>) -> Seq<char>
    decreases words.len(),
{
    if words.len() == 0 {
        Seq::empty()
    } else {
        joined(words.drop_last()) + words.last().text
    }
}

/// The texts of processed words, one after another.
pub open spec fn joined_words(words: Seq<Word>) -> Seq<char>
    decreases words.len(),
{
    if words.len() == 0 {
        Seq::empty()
    } else {
        joined_words(words.drop_last()) + words.last().text
    }
}

/// Strings one after another.
pub open spec fn concat(texts: Seq<Seq<char>>) -> Seq<char>
    decreases texts.len(),
{
    if texts.len() == 0 {
        Seq::empty()
    } else {
        concat(texts.drop_last()) + texts.last()
    }
}

/// Joining two runs of words puts their texts one after the other.
pub proof fn lemma_joined_split(left: Seq<Rendered>, right: Seq<Rendered>)
    ensures
        joined(left + right) == joined(left) + joined(right),
    decreases right.len(),
{
    if right.len() == 0 {
        assert(left + right =~= left);
    } else {
        lemma_joined_split(left, right.drop_last());
        assert((left + right).drop_last() =~= left + right.drop_last());
    }
}

/// The texts of a slice of rendered words, one after another.
pub fn joined_text(words: &[RenderedWord]) -> (text: Vec<char>)
    ensures
        text@ == joined(rendered_views(words@)),
{
    let mut text: Vec<char> = Vec::new();
    for index in 0..words.len()
        invariant
            text@ == joined(rendered_views(words@).take(index as int)),
    {
        push_text(&mut text, words[index].word.text.as_str());
        assert(rendered_views(words@).take(index + 1).drop_last() =~= rendered_views(words@).take(
            index as int,
        ));
    }
    assert(rendered_views(words@).take(words@.len() as int) =~= rendered_views(words@));
    text
}

/// The texts of a slice of processed words, one after another.
pub fn joined_processed_text(words: &[ProcessedWord]) -> (text: Vec<char>)
    ensures
        text@ == joined_words(word_views(words@)),
{
    let mut text: Vec<char> = Vec::new();
    for index in 0..words.len()
        invariant
            text@ == joined_words(word_views(words@).take(index as int)),
    {
        push_text(&mut text, words[index].text.as_str());
        assert(word_views(words@).take(index + 1).drop_last() =~= word_views(words@).take(
            index as int,
        ));
    }
    assert(word_views(words@).take(words@.len() as int) =~= word_views(words@));
    text
}

/// Strings one after another, as characters.
pub fn concat_chars(texts: &[String]) -> (text: Vec<char>)
    ensures
        text@ == concat(text_views(texts@)),
{
    let mut text: Vec<char> = Vec::new();
    for index in 0..texts.len()
        invariant
            text@ == concat(text_views(texts@).take(index as int)),
    {
        push_text(&mut text, texts[index].as_str());
        assert(text_views(texts@).take(index + 1).drop_last() =~= text_views(texts@).take(
            index as int,
        ));
    }
    assert(text_views(texts@).take(texts@.len() as int) =~= text_views(texts@));
    text
}

/// Copies of the strings from `from` to `to`.
pub fn copy_strings(texts: &[String], from: usize, to: usize) -> (copy: Vec<String>)
    requires
        from <= to <= texts@.len(),
    ensures
        text_views(copy@) == text_views(texts@).subrange(from as int, to as int),
{
    let mut copy: Vec<String> = Vec::new();
    for index in from..to
        invariant
            from <= to <= texts@.len(),
            copy@.len() == index - from,
            forall|earlier: int|
                0 <= earlier < index - from ==> (#[trigger] copy@[earlier])@ == texts@[from
                    + earlier]@,
    {
        copy.push(texts[index].clone());
    }
    assert(text_views(copy@) =~= text_views(texts@).subrange(from as int, to as int));
    copy
}

/// Copies of strings.
pub fn copy_texts(texts: &[String]) -> (copy: Vec<String>)
    ensures
        text_views(copy@) == text_views(texts@),
{
    let copy: Vec<String> = copy_strings(texts, 0, texts.len());
    assert(text_views(texts@).subrange(0, texts@.len() as int) =~= text_views(texts@));
    copy
}

}
