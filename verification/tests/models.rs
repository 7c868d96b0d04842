use std::io::Write;

use edge_esr::encoding::{decode_text, text_of, TextError};
use edge_esr::labels::{
    argmax, numeric_input, numeric_label, numeric_labels, plan_numeric, plan_punctuation,
    punctuation_label, total_order,
};
use edge_esr::maplist::{MapError, PunctuationMap};
use edge_esr::tables::{NumericNotChangeList, ReplacementTable};
use edge_esr::types::{joined_text, RenderedWord, WordKind};
use edge_esr::vocabulary::{Vocabulary, VocabularyError};
use edge_esr::wordpiece::{LabelError, PieceSplitter};
use flate2::write::GzEncoder;
use flate2::Compression;

fn compressed(content: &str) -> Vec<u8> {
    let mut encoder = GzEncoder::new(Vec::new(), Compression::default());
    encoder.write_all(content.as_bytes()).unwrap();
    encoder.finish().unwrap()
}

fn strings(values: &[&str]) -> Vec<String> {
    values.iter().map(|value| (*value).to_string()).collect()
}

#[test]
fn compressed_tables_are_read() {
    let bytes = compressed("甲:乙\r\n");
    assert_eq!(decode_text(&bytes, true), Ok("甲:乙\r\n".to_string()));
    let table = ReplacementTable::load(&bytes, true).unwrap();
    let words = vec![RenderedWord::new("甲", WordKind::Text, 1)];
    let text = joined_text(&table.apply_words(&words).unwrap());
    assert_eq!(text, ['乙']);
    assert_eq!(ReplacementTable::load(&bytes[..4], true).err(), Some(TextError::Compression));
    let mut labels = strings(&["BA", "EA"]);
    NumericNotChangeList::load(&compressed("一二\n"), true)
        .unwrap()
        .protect(&['一', '二'], &mut labels);
    assert_eq!(labels, ["O", "O"]);
}

#[test]
fn plain_tables_are_read() {
    assert_eq!(decode_text("a=b".as_bytes(), false), Ok("a=b".to_string()));
    assert_eq!(decode_text(&[0xff, 0xfe], false), Err(TextError::Encoding));
    assert_eq!(decode_text(b"plain", true), Err(TextError::Compression));
    assert_eq!(text_of(None), Err(TextError::Compression));
    assert_eq!(text_of(Some(vec![0xc3, 0xa9])), Ok("é".to_string()));
}

#[test]
fn vocabularies_number_their_lines() {
    let vocabulary = Vocabulary::parse("<unk>\na\nb\na");
    assert_eq!(vocabulary.id("b"), Some(2));
    assert_eq!(vocabulary.id("a"), Some(3));
    assert_eq!(vocabulary.id("c"), None);
    assert_eq!(vocabulary.id_or("c", 9), 9);
    assert!(vocabulary.contains("<unk>"));
    assert!(vocabulary.check_numeric(Some(4)).is_ok());
    assert_eq!(vocabulary.check_numeric(Some(5)), Err(VocabularyError::RowMismatch));
    assert_eq!(vocabulary.check_numeric(None), Err(VocabularyError::RowMismatch));
    assert_eq!(
        Vocabulary::parse("a").check_numeric(Some(1)),
        Err(VocabularyError::MissingUnknown)
    );
    assert_eq!(Vocabulary::parse("").check_punctuation(), Err(VocabularyError::MissingStart));
    assert_eq!(
        Vocabulary::parse("[CLS]").check_punctuation(),
        Err(VocabularyError::MissingSeparator)
    );
    assert_eq!(
        Vocabulary::parse("[CLS]\n[SEP]").check_punctuation(),
        Err(VocabularyError::MissingUnknownPiece)
    );
    assert!(Vocabulary::parse("[CLS]\n[SEP]\n[UNK]").check_punctuation().is_ok());
}

fn map_bytes(records: &[&[u8]]) -> Vec<u8> {
    let mut bytes = b"ANIONEXPMAP1".to_vec();
    bytes.extend((records.len() as u32).to_le_bytes());
    let mut offset = 0_u32;
    bytes.extend(offset.to_le_bytes());
    for record in records {
        offset += record.len() as u32;
        bytes.extend(offset.to_le_bytes());
    }
    for record in records {
        bytes.extend_from_slice(record);
    }
    bytes
}

#[test]
fn maps_are_read_and_searched() {
    let bytes = map_bytes(&["ab\tx  y".as_bytes(), "b\tz".as_bytes(), "中\t国".as_bytes()]);
    let map = PunctuationMap::parse(&bytes).unwrap();
    assert_eq!(map.lookup("ab"), Some(strings(&["x", "y"])));
    assert_eq!(map.lookup("中"), Some(strings(&["国"])));
    assert_eq!(map.lookup("a"), None);
    assert_eq!(PunctuationMap::parse(b"NOTMAP").err(), Some(MapError::Magic));
    assert_eq!(
        PunctuationMap::parse(&map_bytes(&[b"no tab"])).err(),
        Some(MapError::Separator)
    );
    assert_eq!(
        PunctuationMap::parse(&map_bytes(&[&[b'a', b'\t', 0xff]])).err(),
        Some(MapError::Encoding)
    );
    assert_eq!(
        PunctuationMap::parse(&bytes[..bytes.len() - 1]).err(),
        Some(MapError::Truncated)
    );
    assert_eq!(PunctuationMap::parse(&bytes[..18]).err(), Some(MapError::Offsets));
}

fn splitter() -> PieceSplitter {
    PieceSplitter::new(
        Vocabulary::parse("[CLS]\n[SEP]\n[UNK]\nhel\n@@lo\nhi\n好"),
        PunctuationMap::parse(&map_bytes(&["你\thi".as_bytes()])).unwrap(),
    )
}

#[test]
fn tokens_split_into_pieces() {
    let splitter = splitter();
    assert_eq!(splitter.wordpiece("hello"), ["hel", "@@lo"]);
    assert_eq!(splitter.wordpiece("hi hello"), ["hi", "hel", "@@lo"]);
    assert_eq!(splitter.wordpiece("你好x"), ["hi", "好", "[UNK]"]);
    assert_eq!(splitter.wordpiece(" "), ["[UNK]"]);
    assert_eq!(splitter.greedy_wordpiece(&['z']), ["[UNK]"]);
    let input = splitter.punctuation_input(&strings(&["hello", "好"])).unwrap().unwrap();
    assert_eq!(input.token_ids, [0, 3, 4, 6, 1]);
    assert_eq!(input.final_positions, [2, 3]);
    let long = vec!["好".to_string(); 511];
    assert!(matches!(splitter.punctuation_input(&[]), Ok(None)));
    assert_eq!(splitter.punctuation_input(&long).err(), Some(LabelError::InputTooLong));
}

#[test]
fn inputs_are_planned() {
    assert_eq!(plan_numeric(1_030), [(0, 512), (512, 1_024), (1_024, 1_030)]);
    assert!(plan_numeric(0).is_empty());
    assert_eq!(plan_punctuation(&[300, 210, 1, 509]).unwrap(), [(0, 2), (2, 4)]);
    assert_eq!(plan_punctuation(&[511]), Err(LabelError::TokenTooLong));
    let vocabulary = Vocabulary::parse("<unk>\n一");
    assert_eq!(numeric_input(&vocabulary, &['一', '二'], 4), Ok(Some(vec![1, 0])));
    assert_eq!(numeric_input(&vocabulary, &[], 1), Ok(None));
    assert_eq!(numeric_input(&vocabulary, &['一'], 1), Err(LabelError::InputShape));
}

#[test]
fn labels_are_the_greatest_scores() {
    let key = |value: f32| total_order(value.to_bits());
    assert!(key(-1.0) < key(-0.0));
    assert!(key(-0.0) < key(0.0));
    assert!(key(f32::MAX) < key(f32::INFINITY));
    assert_eq!(argmax(&[key(0.5), key(0.75), key(0.75), key(-1.0)]), 2);
    assert_eq!(numeric_label(0), "O");
    assert_eq!(numeric_label(18), "<unk>");
    let mut row = vec![key(0.0); 19];
    row[2] = key(1.0);
    assert_eq!(numeric_labels(&[row]), ["BA"]);
    assert_eq!(punctuation_label(&[key(0.3), key(0.4), key(0.1)], true), 0);
    assert_eq!(punctuation_label(&[key(0.1), key(0.4), key(0.1)], false), 1);
}
