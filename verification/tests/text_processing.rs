use edge_esr::english::{apply_english_grammar, apply_spoken_web_semantics, format_english_words};
use edge_esr::english_grammar::{
    are_letter_tokens, capitalize, to_lower, token_source_ends,
};
use edge_esr::english_numbers::{
    english_cardinal_value, english_digit, fraction_denominator, is_english_month,
    is_ordinal_word, ordinal_suffix, ordinal_value, parse_english_cardinal,
    parse_english_ordinal, parse_spoken_year,
};
use edge_esr::numeric::{
    cardinal, digit_sequence, digit_value, format_grouped, format_number, integer_text,
    large_unit, parse_chinese_number, small_unit, time,
};
use edge_esr::pieces::{convert_numeric, find_span};
use edge_esr::postprocess::{
    is_bare_split_number, is_short_decimal, keep_nonempty, normalize_midnight_zero,
    should_suppress_final_punctuation, spread_labels, EdgeEsrPostprocessor, PostprocessOptions,
    Postprocessor,
};
use edge_esr::punctuation::{punctuate, punctuation_mark};
use edge_esr::semantics::apply_semantics;
use edge_esr::tables::{NumericNotChangeList, ReplacementError, ReplacementTable};
use edge_esr::text;
use edge_esr::types::{joined_text, RenderedWord, WordKind};
use edge_esr::words::{
    coalesce_per_mille, coalesce_within_tokens, has_prefix_symbol, is_unsigned_decimal,
    merge_text_pieces, numeric_features, token_boundaries,
};

fn chars(text: &str) -> Vec<char> {
    text.chars().collect()
}

fn string(characters: Vec<char>) -> String {
    characters.into_iter().collect()
}

fn strings(values: &[&str]) -> Vec<String> {
    values.iter().map(|value| (*value).to_string()).collect()
}

fn joined(words: &[RenderedWord]) -> String {
    string(joined_text(words))
}

#[test]
fn english_cardinal_and_ordinal_parser_cover_compounds() {
    let words = ["one", "hundred", "and", "twenty", "three"]
        .map(str::to_string);
    assert_eq!(parse_english_cardinal(&words), Some(123));
    let ordinal = ["twenty", "second"].map(str::to_string);
    assert_eq!(parse_english_ordinal(&ordinal), Some(22));
}

#[test]
fn english_spacing_joins_initials() {
    let words = vec![
        RenderedWord::new("G", WordKind::Text, 1),
        RenderedWord::new("P", WordKind::Text, 2),
        RenderedWord::new("T", WordKind::Text, 3),
    ];
    let formatted = format_english_words(&words);
    assert_eq!(
        formatted
            .iter()
            .map(|item| item.word.text.as_str())
            .collect::<String>(),
        " GPT"
    );
}

#[test]
fn chinese_cardinals_cover_large_and_sequence_forms() {
    assert_eq!(string(cardinal(&chars("一百二十三"))), "123");
    assert_eq!(string(cardinal(&chars("一万零三十"))), "10,030");
    assert_eq!(string(cardinal(&chars("一亿零三万零五"))), "100,030,005");
    assert_eq!(string(cardinal(&chars("二零二六"))), "2026");
    assert_eq!(string(cardinal(&chars("一千万"))), "1,000万");
}

#[test]
fn time_conversion_handles_quarters_and_midnight() {
    assert_eq!(string(time(&chars("三点一刻"))), "3:15");
    assert_eq!(string(time(&chars("零点零五分"))), "0:05");
}

#[test]
fn replacement_order_preserves_chaining() {
    let table = ReplacementTable::from_pairs(&[("a", "b"), ("b", "c"), ("d", "a")]);
    let words = vec![RenderedWord::new("a", WordKind::Text, 1)];
    let replaced = table.apply_words(&words).unwrap();
    assert_eq!(joined(&replaced), "c");
}

#[test]
fn replacement_respects_ascii_word_boundaries() {
    let table = ReplacementTable::from_pairs(&[("cat", "dog")]);
    let words = vec![RenderedWord::new("copycat cat", WordKind::Text, 11)];
    let replaced = table.apply_words(&words).unwrap();
    assert_eq!(joined(&replaced), "copycat dog");
}

#[test]
fn replacement_spans_words() {
    let table = ReplacementTable::from_pairs(&[("人工智能", "AI")]);
    let words = vec![
        RenderedWord::new("说人工", WordKind::Text, 3),
        RenderedWord::new("智能的", WordKind::Text, 6),
    ];
    let replaced = table.apply_words(&words).unwrap();
    assert_eq!(joined(&replaced), "说AI的");
}

#[test]
fn replacement_needs_room_in_the_source() {
    let table = ReplacementTable::from_pairs(&[("甲乙", "x")]);
    let words = vec![RenderedWord::new("丙甲乙丁", WordKind::Text, 0)];
    assert_eq!(table.apply_words(&words).err(), Some(ReplacementError::SourcePosition));
}

#[test]
fn english_number_words_have_their_values() {
    assert_eq!(english_cardinal_value("seventeen"), Some(17));
    assert_eq!(english_cardinal_value("dog"), None);
    assert_eq!(ordinal_value("third"), Some(3));
    assert_eq!(english_digit("seven"), Some('7'));
    assert_eq!(fraction_denominator("third"), Some(3));
    assert!(is_english_month("march"));
    assert!(is_ordinal_word("twelfth"));
    assert_eq!(ordinal_suffix(11), "th");
    assert_eq!(ordinal_suffix(21), "st");
    assert_eq!(ordinal_suffix(102), "nd");
    assert_eq!(ordinal_suffix(113), "th");
    assert_eq!(parse_spoken_year(&strings(&["two", "thousand", "five"])), Some(2005));
}

#[test]
fn chinese_numbers_have_their_values() {
    assert_eq!(digit_value('七'), Some(7));
    assert_eq!(small_unit('百'), Some(100));
    assert_eq!(large_unit('万'), Some(10_000));
    assert_eq!(parse_chinese_number(&chars("两千零五")), Some(2_005));
    assert_eq!(parse_chinese_number(&chars("狗")), None);
    assert_eq!(string(integer_text(-42)), "-42");
    assert_eq!(string(format_grouped(1_234_567)), "1,234,567");
    assert_eq!(string(format_number(20_000)), "20,000");
    assert_eq!(string(format_number(-9_999)), "-9999");
    assert_eq!(string(digit_sequence(&chars("一二三"))), "123");
}

#[test]
fn tokens_keep_their_ends() {
    assert_eq!(token_source_ends(&strings(&["ab", "的", "c"])), [2, 3, 4]);
    assert!(are_letter_tokens(&strings(&["a", "B"])));
    assert!(!are_letter_tokens(&strings(&["a1"])));
    assert_eq!(string(capitalize(&chars("paris"))), "Paris");
    assert_eq!(to_lower("AbC"), "abc");
    let boundaries = token_boundaries(&strings(&["ab", "c"]));
    assert!(boundaries.contains(&1) && boundaries.contains(&2) && !boundaries.contains(&0));
}

fn numeric_words(text: &str, labels: &[&str]) -> Vec<RenderedWord> {
    let characters = chars(text);
    let pieces = apply_semantics(&convert_numeric(&characters, &strings(labels)));
    let tokens = characters.iter().map(|character| character.to_string()).collect::<Vec<_>>();
    merge_text_pieces(&pieces, &token_boundaries(&tokens))
}

#[test]
fn labelled_numbers_are_converted() {
    let labels = ["O", "BA", "MA", "EA", "O"];
    assert!(find_span(&chars("有二十三个"), &strings(&labels), 1).is_some());
    assert!(find_span(&chars("有二十三个"), &strings(&labels), 0).is_none());
    assert_eq!(joined(&numeric_words("有二十三个", &labels)), "有23个");
}

#[test]
fn pieces_join_within_tokens() {
    let words = vec![
        RenderedWord::new("a", WordKind::Text, 1),
        RenderedWord::new("b", WordKind::Text, 2),
        RenderedWord::new("c", WordKind::Text, 3),
    ];
    let boundaries = token_boundaries(&strings(&["ab", "c"]));
    assert_eq!(joined(&coalesce_within_tokens(&words, &boundaries)), "abc");
    assert_eq!(joined(&coalesce_per_mille(&words)), "abc");
    assert!(is_unsigned_decimal(&chars("3.5")));
    assert!(!is_unsigned_decimal(&chars("-3")));
    assert!(!has_prefix_symbol(&chars("人")));
    assert_eq!(numeric_features(&strings(&["一", "x"])).len(), 4);
}

#[test]
fn spoken_symbols_stay_outside_of_words() {
    let tokens = strings(&["hello"]);
    let words = vec![RenderedWord::new("hello", WordKind::Text, 5)];
    assert_eq!(joined(&apply_spoken_web_semantics(&tokens, &words)), "hello");
    assert_eq!(
        joined(&apply_english_grammar(&tokens, &words, &[0, 0, 0, 0, 0])),
        "hello"
    );
}

#[test]
fn marks_follow_their_labels() {
    assert_eq!(punctuation_mark(1, true), "，");
    assert_eq!(punctuation_mark(1, false), ", ");
    assert_eq!(punctuation_mark(2, true), "。");
    assert_eq!(punctuation_mark(2, false), ".");
    assert_eq!(punctuation_mark(3, true), "！");
    assert_eq!(punctuation_mark(4, false), "?");
    assert_eq!(punctuation_mark(0, true), "");
    let words = vec![
        RenderedWord::new("你", WordKind::Text, 1),
        RenderedWord::new("好", WordKind::Text, 2),
    ];
    let boundaries = token_boundaries(&strings(&["你", "好"]));
    let marked = punctuate(&words, &[1, 2], &boundaries, true, true, 2);
    let text = marked.iter().map(|word| word.text.as_str()).collect::<String>();
    assert_eq!(text, "你，好。");
    let open = punctuate(&words, &[1, 2], &boundaries, true, false, 2);
    let text = open.iter().map(|word| word.text.as_str()).collect::<String>();
    assert_eq!(text, "你，好");
}

#[test]
fn final_marks_are_suppressed_after_bare_numbers() {
    let suppress = |raw: &str, rendered: &str, labels: &[&str]| {
        should_suppress_final_punctuation(&chars(raw), &chars(rendered), &strings(labels), 1)
    };
    assert!(suppress("五", "5", &["SA"]));
    assert!(suppress("一二三", "123", &["BA", "MA", "EA"]));
    assert!(suppress("三点五", "3.5", &["BC", "MC", "EC"]));
    assert!(!suppress("你好", "你好", &["O", "O"]));
    assert!(is_short_decimal(&chars("12.75")));
    assert!(!is_short_decimal(&chars("123.5")));
    assert!(is_bare_split_number(&chars("12 34")));
    assert!(!is_bare_split_number(&chars("12  34")));
    assert_eq!(string(normalize_midnight_zero(&chars("0:05 10:05"))), "00:05 10:05");
}

#[test]
fn output_options_change_the_marks() {
    let plain = Postprocessor::new(PostprocessOptions { english_punctuation: false });
    let result = plain.apply("  你好，世界。 ", strings(&["你好"]));
    assert_eq!(result.text, "你好，世界。");
    assert_eq!(result.tokens, ["你好"]);
    let english = Postprocessor::new(PostprocessOptions { english_punctuation: true });
    assert_eq!(english.apply("啊，。！？：；、", Vec::new()).text, "啊,.!?:;,");
}

fn postprocessor(english_punctuation: bool) -> EdgeEsrPostprocessor {
    EdgeEsrPostprocessor::new(
        ReplacementTable::parse("甲:乙\n"),
        NumericNotChangeList::parse("二十三\n"),
        PostprocessOptions { english_punctuation },
    )
}

#[test]
fn transcripts_are_finished() {
    let tokens = strings(&["有", "", "三", "十", "人"]);
    assert_eq!(keep_nonempty(&tokens), ["有", "三", "十", "人"]);
    let result = postprocessor(false)
        .process(&tokens, strings(&["O", "BA", "EA", "O"]), &[0, 0, 0, 2], true)
        .unwrap();
    assert_eq!(result.text, "有30人。");
    let result = postprocessor(true)
        .process(&tokens, strings(&["O", "BA", "EA", "O"]), &[0, 0, 0, 2], true)
        .unwrap();
    assert_eq!(result.text, "有30人.");
    assert_eq!(result.tokens.concat(), "有30人.");
    let empty = postprocessor(false).process(&[], Vec::new(), &[], true).unwrap();
    assert_eq!(empty.text, "");
}

#[test]
fn protected_phrases_are_not_converted() {
    let tokens = strings(&["二", "十", "三", "个"]);
    let result = postprocessor(false)
        .process(&tokens, strings(&["BA", "MA", "EA", "O"]), &[0, 0, 0, 0], false)
        .unwrap();
    assert_eq!(result.text, "二十三个");
}

#[test]
fn labels_go_to_the_last_character_of_their_token() {
    assert_eq!(spread_labels(&strings(&["abc", "d"]), &[2, 1]), [0, 0, 2, 1]);
}

#[test]
fn white_space_is_that_of_unicode() {
    for code in 0..0x1_1000_u32 {
        if let Some(character) = char::from_u32(code) {
            assert_eq!(text::is_whitespace(character), character.is_whitespace());
        }
    }
}

#[test]
fn lines_end_at_line_feeds() {
    let content = "a\r\n\nb\rc\r\nlast\r";
    let lines = text::split_lines(&chars(content));
    let expected = content.lines().map(chars).collect::<Vec<_>>();
    assert_eq!(lines, expected);
}

#[test]
fn grouped_numerals_stand_for_their_values() {
    for value in [0, 7, 999, 1_000, -12_345, 1_234_567, i64::MAX, i64::MIN] {
        let numeral = string(format_grouped(value));
        assert_eq!(numeral.replace(',', "").parse(), Ok(value));
        let digits = numeral.trim_start_matches('-');
        let groups = digits.split(',').map(str::len).collect::<Vec<_>>();
        assert!((1..=3).contains(&groups[0]));
        assert!(groups[1..].iter().all(|length| *length == 3));
    }
}

#[test]
fn labels_may_outnumber_characters() {
    let pieces = convert_numeric(&chars("十"), &strings(&["SA", "O", "BA"]));
    assert_eq!(pieces.len(), 1);
    assert_eq!(pieces[0].text, ['1', '0']);
    let pieces = convert_numeric(&chars("分"), &strings(&["O", "BC", "O"]));
    assert_eq!(pieces.len(), 1);
}
