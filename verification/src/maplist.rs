//! The list of words whose pieces the punctuation model fixes.

use vstd::prelude::*;
use vstd::utf8::*;

use crate::encoding::utf8_text;
use crate::text;
use crate::text::{chars_of, is_whitespace, part, string_of};
use crate::types;
use crate::types::copy_texts;

verus! {

/// Why a list is refused.
#[derive(Clone, Copy, Debug, PartialEq, Eq, Structural)]
pub enum MapError {
    /// The magic bytes are missing.
    Magic,
    /// The offsets do not fit the file or do not begin at zero.
    Offsets,
    /// A record lies outside the file.
    Truncated,
    /// A record has no tab.
    Separator,
    /// The pieces of a record are not UTF-8.
    Encoding,
}

/// The words of a text from position `start` on, separated by white space; the open word began
/// at `begin`.
pub open spec fn words_from(content: Seq<char>, begin: int, index: int) -> Seq<Seq<char>>
    decreases content.len() - index,
{
    if index >= content.len() {
        if begin < content.len() {
            seq![content.subrange(begin, content.len() as int)]
        } else {
            Seq::empty()
        }
    } else if is_whitespace(content[index]) {
        (if begin < index {
            seq![content.subrange(begin, index)]
        } else {
            Seq::empty()
        }) + words_from(content, index + 1, index + 1)
    } else {
        words_from(content, begin, index + 1)
    }
}

/// The words of a text, separated by white space.
pub open spec fn split_words(content: Seq<char>) -> Seq<Seq<char>> {
    words_from(content, 0, 0)
}

/// Splits a text at white space.
fn split_whitespace(content: &[char]) -> (result: Vec<String>)
    ensures
        types::text_views(result@) == split_words(content@),
{
    let mut result: Vec<String> = Vec::new();
    let mut begin: usize = 0;
    let mut index: usize = 0;
    assert(types::text_views(result@) + words_from(content@, 0, 0) =~= split_words(content@));
    while index < content.len()
        invariant
            begin <= index <= content@.len(),
            types::text_views(result@) + words_from(content@, begin as int, index as int)
                == split_words(content@),
        decreases content@.len() - index,
    {
        let ghost before = types::text_views(result@);
        if is_whitespace(content[index]) {
            if begin < index {
                result.push(string_of(&part(content, begin, index)));
            }
            assert(types::text_views(result@) + words_from(content@, index + 1, index + 1)
                =~= before + words_from(content@, begin as int, index as int));
            begin = index + 1;
        }
        index = index + 1;
    }
    let ghost before = types::text_views(result@);
    if begin < content.len() {
        result.push(string_of(&part(content, begin, content.len())));
    }
    assert(types::text_views(result@) =~= before + words_from(
        content@,
        begin as int,
        index as int,
    ));
    result
}

/// The little-endian number in the four bytes at `offset`.
pub open spec fn number_at(data: Seq<u8>, offset: int) -> int {
    data[offset] + 0x100 * data[offset + 1] + 0x1_0000 * data[offset + 2] + 0x100_0000 * data[offset
        + 3]
}

fn read_number(data: &[u8], offset: usize) -> (value: u64)
    requires
        offset + 4 <= data@.len(),
    ensures
        value == number_at(data@, offset as int),
        value <= u32::MAX,
{
    data[offset] as u64 + 0x100 * data[offset + 1] as u64 + 0x1_0000 * data[offset + 2] as u64
        + 0x100_0000 * data[offset + 3] as u64
}

/// The bytes that a list begins with.
pub open spec fn magic() -> Seq<u8> {
    seq![65u8, 78, 73, 79, 78, 69, 88, 80, 77, 65, 80, 49]
}

fn has_magic(data: &[u8]) -> (result: bool)
    ensures
        result == (data@.len() >= 12 && data@.take(12) == magic()),
{
    let result: bool = data.len() >= 12 && data[0] == 65 && data[1] == 78 && data[2] == 73
        && data[3] == 79 && data[4] == 78 && data[5] == 69 && data[6] == 88 && data[7] == 80
        && data[8] == 77 && data[9] == 65 && data[10] == 80 && data[11] == 49;
    proof {
        if data@.len() >= 12 {
            let head = data@.take(12);
            if result {
                assert(head =~= magic());
            }
            if head == magic() {
                assert(head[0] == 65 && head[1] == 78 && head[2] == 73 && head[3] == 79 && head[4]
                    == 78 && head[5] == 69 && head[6] == 88 && head[7] == 80 && head[8] == 77
                    && head[9] == 65 && head[10] == 80 && head[11] == 49);
            }
        }
    }
    result
}

/// The position of the first tab from `index` on.
pub open spec fn tab_at(record: Seq<u8>, index: int) -> int
    decreases record.len() - index,
{
    if index >= record.len() || record[index] == 9 {
        index
    } else {
        tab_at(record, index + 1)
    }
}

/// A word in bytes and its pieces.
pub struct MapEntry {
    pub source: Seq<u8>,
    pub pieces: Seq<Seq<char>>,
}

/// The entry that a record holds: a word, a tab, and pieces between white space.
pub open spec fn record_entry(record: Seq<u8>) -> Result<MapEntry, MapError> {
    let tab = tab_at(record, 0);
    if tab >= record.len() {
        Err(MapError::Separator)
    } else {
        let content = record.skip(tab + 1);
        if valid_utf8(content) {
            Ok(MapEntry { source: record.take(tab), pieces: split_words(decode_utf8(content)) })
        } else {
            Err(MapError::Encoding)
        }
    }
}

/// How many records a list announces.
pub open spec fn record_count(data: Seq<u8>) -> int {
    number_at(data, 12)
}

/// Where the records of a list begin.
pub open spec fn records_start(data: Seq<u8>) -> int {
    16 + (record_count(data) + 1) * 4
}

/// The entry of record `index`, or why there is none.
pub open spec fn entry_at(data: Seq<u8>, index: int) -> Result<MapEntry, MapError> {
    let start = records_start(data) + number_at(data, 16 + index * 4);
    let end = records_start(data) + number_at(data, 16 + (index + 1) * 4);
    if start > end || end > data.len() {
        Err(MapError::Truncated)
    } else {
        record_entry(data.subrange(start, end))
    }
}

/// The first `count` entries, or the first reason against one.
pub open spec fn entries(data: Seq<u8>, count: int) -> Result<Seq<MapEntry>, MapError>
    decreases count,
{
    if count <= 0 {
        Ok(Seq::empty())
    } else {
        match entries(data, count - 1) {
            Err(error) => Err(error),
            Ok(before) => match entry_at(data, count - 1) {
                Err(error) => Err(error),
                Ok(entry) => Ok(before.push(entry)),
            },
        }
    }
}

/// The entries of a list, or why it is refused.
pub open spec fn list_entries(data: Seq<u8>) -> Result<Seq<MapEntry>, MapError> {
    if data.len() < 16 || data.take(12) != magic() {
        Err(MapError::Magic)
    } else if records_start(data) > data.len() || number_at(data, 16) != 0 {
        Err(MapError::Offsets)
    } else {
        entries(data, record_count(data))
    }
}

/// Words in bytes with their pieces, searched by halving.
#[derive(Debug)]
pub struct PunctuationMap {
    entries: Vec<(Vec<u8>, Vec<String>)>,
}

/// The views of entries.
pub open spec fn entry_views(items: Seq<(Vec<u8>, Vec<String>)>) -> Seq<MapEntry> {
    Seq::new(
        items.len(),
        |index: int|
            MapEntry { source: items[index].0@, pieces: types::text_views(items[index].1@) },
    )
}

/// The view of a parsed list.
pub open spec fn map_result(result: Result<PunctuationMap, MapError>) -> Result<
    Seq<MapEntry>,
    MapError,
> {
    match result {
        Ok(map) => Ok(map.entries()),
        Err(error) => Err(error),
    }
}

/// The bytes `from..to`.
fn byte_part(data: &[u8], from: usize, to: usize) -> (result: Vec<u8>)
    requires
        from <= to <= data@.len(),
    ensures
        result@ == data@.subrange(from as int, to as int),
{
    let mut result: Vec<u8> = Vec::new();
    for index in from..to
        invariant
            from <= to <= data@.len(),
            result@ == data@.subrange(from as int, index as int),
    {
        result.push(data[index]);
    }
    result
}

/// Reads the entry of one record.
fn read_entry(record: &[u8]) -> (result: Result<(Vec<u8>, Vec<String>), MapError>)
    ensures
        match result {
            Ok(entry) => record_entry(record@) == Ok::<MapEntry, MapError>(
                MapEntry { source: entry.0@, pieces: types::text_views(entry.1@) },
            ),
            Err(error) => record_entry(record@) == Err::<MapEntry, MapError>(error),
        },
{
    let mut tab: usize = 0;
    while tab < record.len() && record[tab] != 9
        invariant
            tab <= record@.len(),
            tab_at(record@, 0) == tab_at(record@, tab as int),
        decreases record@.len() - tab,
    {
        tab = tab + 1;
    }
    if tab >= record.len() {
        return Err(MapError::Separator);
    }
    let source: Vec<u8> = byte_part(record, 0, tab);
    let content: Vec<u8> = byte_part(record, tab + 1, record.len());
    assert(source@ =~= record@.take(tab as int));
    assert(content@ =~= record@.skip(tab + 1));
    match utf8_text(content) {
        Some(pieces) => Ok((source, split_whitespace(&chars_of(pieces.as_str())))),
        None => Err(MapError::Encoding),
    }
}

/// An error of a record is the error of the list.
proof fn lemma_entry_error(data: Seq<u8>, index: int, count: int, error: MapError)
    requires
        0 <= index < count,
        entries(data, index) is Ok,
        entry_at(data, index) == Err::<MapEntry, MapError>(error),
    ensures
        entries(data, count) == Err::<Seq<MapEntry>, MapError>(error),
    decreases count - index,
{
    if index + 1 < count {
        lemma_entry_error(data, index, count - 1, error);
    }
}

/// How two byte strings stand to each other.
#[derive(Clone, Copy, Debug, PartialEq, Eq, Structural)]
pub enum Standing {
    Before,
    Same,
    After,
}

/// How two byte strings that agree up to `index` stand to each other in dictionary order.
pub open spec fn standing(left: Seq<u8>, right: Seq<u8>, index: int) -> Standing
    decreases left.len() - index,
{
    if index >= left.len() {
        if index >= right.len() {
            Standing::Same
        } else {
            Standing::Before
        }
    } else if index >= right.len() {
        Standing::After
    } else if left[index] < right[index] {
        Standing::Before
    } else if left[index] > right[index] {
        Standing::After
    } else {
        standing(left, right, index + 1)
    }
}

fn find_standing(left: &[u8], right: &[u8]) -> (result: Standing)
    ensures
        result == standing(left@, right@, 0),
{
    let mut index: usize = 0;
    while index < left.len() && index < right.len()
        invariant
            index <= left@.len(),
            index <= right@.len(),
            standing(left@, right@, 0) == standing(left@, right@, index as int),
        decreases left@.len() - index,
    {
        if left[index] < right[index] {
            return Standing::Before;
        }
        if left[index] > right[index] {
            return Standing::After;
        }
        index = index + 1;
    }
    if index >= left.len() {
        if index >= right.len() {
            Standing::Same
        } else {
            Standing::Before
        }
    } else {
        Standing::After
    }
}

/// The entry for a word in `items[low..high]`, found by halving.
pub open spec fn search(items: Seq<MapEntry>, word: Seq<u8>, low: int, high: int) -> Option<int>
    decreases high - low,
{
    if low >= high {
        None
    } else {
        let middle = low + (high - low) / 2;
        match standing(items[middle].source, word, 0) {
            Standing::Same => Some(middle),
            Standing::Before => search(items, word, middle + 1, high),
            Standing::After => search(items, word, low, middle),
        }
    }
}

/// The pieces that a list fixes for a word.
pub open spec fn mapped(items: Seq<MapEntry>, word: Seq<char>) -> Option<Seq<Seq<char>>> {
    match search(items, encode_utf8(word), 0, items.len() as int) {
        Some(index) => Some(items[index].pieces),
        None => None,
    }
}

impl PunctuationMap {
    /// The entries.
    pub closed spec fn entries(self) -> Seq<MapEntry> {
        entry_views(self.entries@)
    }

    /// Reads a list.
    pub fn parse(data: &[u8]) -> (result: Result<Self, MapError>)
        ensures
            map_result(result) == list_entries(data@),
    {
        let length: usize = data.len();
        if length < 16 || !has_magic(data) {
            return Err(MapError::Magic);
        }
        let count: u64 = read_number(data, 12);
        let start: u64 = 16 + (count + 1) * 4;
        if start > length as u64 || read_number(data, 16) != 0 {
            return Err(MapError::Offsets);
        }
        let mut items: Vec<(Vec<u8>, Vec<String>)> = Vec::new();
        assert(entry_views(items@) =~= Seq::empty());
        let mut index: u64 = 0;
        while index < count
            invariant
                length == data@.len(),
                length >= 16,
                data@.take(12) == magic(),
                number_at(data@, 16) == 0,
                count == record_count(data@),
                start == records_start(data@),
                start <= length,
                count <= u32::MAX,
                index <= count,
                entries(data@, index as int) == Ok::<Seq<MapEntry>, MapError>(entry_views(items@)),
            decreases count - index,
        {
            let begin: u64 = start + read_number(data, (16 + index * 4) as usize);
            let end: u64 = start + read_number(data, (16 + (index + 1) * 4) as usize);
            if begin > end || end > length as u64 {
                proof {
                    lemma_entry_error(data@, index as int, count as int, MapError::Truncated);
                }
                return Err(MapError::Truncated);
            }
            let record: Vec<u8> = byte_part(data, begin as usize, end as usize);
            let ghost before = entry_views(items@);
            match read_entry(&record) {
                Ok(entry) => {
                    items.push(entry);
                    assert(entry_views(items@) =~= before.push(
                        MapEntry { source: entry.0@, pieces: types::text_views(entry.1@) },
                    ));
                },
                Err(error) => {
                    proof {
                        lemma_entry_error(data@, index as int, count as int, error);
                    }
                    return Err(error);
                },
            }
            index = index + 1;
        }
        Ok(PunctuationMap { entries: items })
    }

    /// The pieces that the list fixes for a word.
    pub fn lookup(&self, word: &str) -> (pieces: Option<Vec<String>>)
        ensures
            match pieces {
                Some(pieces) => mapped(self.entries(), word@) == Some(types::text_views(pieces@)),
                None => mapped(self.entries(), word@) is None,
            },
    {
        let target: &[u8] = word.as_bytes();
        let ghost items = self.entries();
        let mut low: usize = 0;
        let mut high: usize = self.entries.len();
        while low < high
            invariant
                items == entry_views(self.entries@),
                items == self.entries(),
                low <= high <= items.len(),
                target@ == encode_utf8(word@),
                search(items, target@, 0, items.len() as int) == search(
                    items,
                    target@,
                    low as int,
                    high as int,
                ),
            decreases high - low,
        {
            let middle: usize = low + (high - low) / 2;
            assert(items[middle as int].source == self.entries@[middle as int].0@);
            match find_standing(&self.entries[middle].0, target) {
                Standing::Same => {
                    return Some(copy_texts(&self.entries[middle].1));
                },
                Standing::Before => {
                    low = middle + 1;
                },
                Standing::After => {
                    high = middle;
                },
            }
        }
        None
    }
}

/// The entries stand in dictionary order of their words, without repetition.
pub open spec fn sorted(items: Seq<MapEntry>) -> bool {
    forall|early: int, late: int|
        0 <= early < late < items.len() ==> standing(
            (#[trigger] items[early]).source,
            (#[trigger] items[late]).source,
            0,
        ) == Standing::Before
}

proof fn lemma_standing_same(left: Seq<u8>, right: Seq<u8>, index: int)
    requires
        0 <= index <= left.len(),
        index <= right.len(),
        forall|earlier: int| 0 <= earlier < index ==> left[earlier] == right[earlier],
    ensures
        standing(left, right, index) == Standing::Same <==> left == right,
    decreases left.len() - index,
{
    if index < left.len() && index < right.len() && left[index] == right[index] {
        lemma_standing_same(left, right, index + 1);
    } else if index >= left.len() && index >= right.len() {
        assert(left =~= right);
    }
}

proof fn lemma_standing_flip(left: Seq<u8>, right: Seq<u8>, index: int)
    requires
        0 <= index <= left.len(),
        index <= right.len(),
    ensures
        standing(left, right, index) == Standing::Before <==> standing(right, left, index)
            == Standing::After,
    decreases left.len() - index,
{
    if index < left.len() && index < right.len() && left[index] == right[index] {
        lemma_standing_flip(left, right, index + 1);
    }
}

/// A word that a list in dictionary order holds is found, and nothing else is.
pub proof fn law_sorted_words_are_found(
    items: Seq<MapEntry>,
    word: Seq<u8>,
    low: int,
    high: int,
)
    requires
        sorted(items),
        0 <= low <= high <= items.len(),
    ensures
        match search(items, word, low, high) {
            Some(index) => low <= index < high && items[index].source == word,
            None => forall|index: int| low <= index < high ==> (#[trigger] items[index]).source
                != word,
        },
    decreases high - low,
{
    if low < high {
        let middle = low + (high - low) / 2;
        lemma_standing_same(items[middle].source, word, 0);
        lemma_standing_flip(items[middle].source, word, 0);
        law_sorted_words_are_found(items, word, middle + 1, high);
        law_sorted_words_are_found(items, word, low, middle);
        if search(items, word, low, high) is None {
            assert forall|index: int| low <= index < high implies (#[trigger] items[index]).source
                != word by {
                if items[index].source == word {
                    if index < middle {
                        assert(standing(items[index].source, items[middle].source, 0)
                            == Standing::Before);
                        lemma_standing_flip(items[index].source, items[middle].source, 0);
                    } else if index > middle {
                        assert(standing(items[middle].source, items[index].source, 0)
                            == Standing::Before);
                    }
                }
            }
        }
    }
}

}
