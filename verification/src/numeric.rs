//! Chinese numerals: cardinals, digit sequences and times of day.

use vstd::arithmetic::div_mod::*;
use vstd::prelude::*;

use crate::text;
use crate::text::{
    chars_of, decimal_text, group_digits, is_ascii_digit, is_text, part, prepend, push_chars,
    two_digit_text,
};

verus! {

/// The value of a digit character.
pub open spec fn digit(character: char) -> Option<int> {
    if character == '零' || character == '〇' || character == '洞' {
        Some(0)
    } else if character == '一' || character == '壹' || character == '幺' {
        Some(1)
    } else if character == '二' || character == '贰' || character == '两' {
        Some(2)
    } else if character == '三' || character == '叁' {
        Some(3)
    } else if character == '四' || character == '肆' {
        Some(4)
    } else if character == '五' || character == '伍' {
        Some(5)
    } else if character == '六' || character == '陆' {
        Some(6)
    } else if character == '七' || character == '柒' {
        Some(7)
    } else if character == '八' || character == '捌' {
        Some(8)
    } else if character == '九' || character == '玖' {
        Some(9)
    } else if is_ascii_digit(character) {
        Some(character as int - 48)
    } else {
        None
    }
}

/// The unit characters that multiply one digit.
pub open spec fn small(character: char) -> Option<int> {
    if character == '十' || character == '拾' {
        Some(10)
    } else if character == '百' || character == '佰' {
        Some(100)
    } else if character == '千' || character == '仟' {
        Some(1_000)
    } else {
        None
    }
}

/// The unit characters that multiply a whole section.
pub open spec fn large(character: char) -> Option<int> {
    if character == '万' || character == '萬' {
        Some(10_000)
    } else if character == '亿' || character == '億' {
        Some(100_000_000)
    } else if character == '兆' {
        Some(1_000_000_000_000)
    } else {
        None
    }
}

/// An optional machine integer as a mathematical one.
pub open spec fn as_int(value: Option<i64>) -> Option<int> {
    match value {
        Some(value) => Some(value as int),
        None => None,
    }
}

pub fn digit_value(character: char) -> (value: Option<i64>)
    ensures
        as_int(value) == digit(character),
{
    match character {
        '零' | '〇' | '洞' => Some(0),
        '一' | '壹' | '幺' => Some(1),
        '二' | '贰' | '两' => Some(2),
        '三' | '叁' => Some(3),
        '四' | '肆' => Some(4),
        '五' | '伍' => Some(5),
        '六' | '陆' => Some(6),
        '七' | '柒' => Some(7),
        '八' | '捌' => Some(8),
        '九' | '玖' => Some(9),
        _ => if is_ascii_digit(character) {
            Some((character as u8 - 48) as i64)
        } else {
            None
        },
    }
}

pub fn small_unit(character: char) -> (value: Option<i64>)
    ensures
        as_int(value) == small(character),
{
    match character {
        '十' | '拾' => Some(10),
        '百' | '佰' => Some(100),
        '千' | '仟' => Some(1_000),
        _ => None,
    }
}

pub fn large_unit(character: char) -> (value: Option<i64>)
    ensures
        as_int(value) == large(character),
{
    match character {
        '万' | '萬' => Some(10_000),
        '亿' | '億' => Some(100_000_000),
        '兆' => Some(1_000_000_000_000),
        _ => None,
    }
}

/// Whether a character can stand in a numeral: a digit or a unit.
pub open spec fn numeric_feature(character: char) -> bool {
    digit(character) is Some || small(character) is Some || large(character) is Some
}

/// Whether a character can stand in a sequence of digits.
pub open spec fn sequence_digit(character: char) -> bool {
    character != '两' && digit(character) is Some
}

/// Every character can stand in a sequence of digits.
pub open spec fn sequence_digits(source: Seq<char>) -> bool {
    forall|index: int| 0 <= index < source.len() ==> sequence_digit(#[trigger] source[index])
}

pub fn is_numeric_feature_character(character: char) -> (result: bool)
    ensures
        result == numeric_feature(character),
{
    digit_value(character).is_some() || small_unit(character).is_some() || large_unit(
        character,
    ).is_some()
}

pub fn is_sequence_digit(character: char) -> (result: bool)
    ensures
        result == sequence_digit(character),
{
    character != '两' && digit_value(character).is_some()
}

pub fn is_digit_character(character: char) -> (result: bool)
    ensures
        result == (digit(character) is Some),
{
    digit_value(character).is_some()
}

pub fn are_sequence_digits(source: &[char]) -> (result: bool)
    ensures
        result == sequence_digits(source@),
{
    for index in 0..source.len()
        invariant
            forall|earlier: int|
                0 <= earlier < index ==> sequence_digit(#[trigger] source@[earlier]),
    {
        if !is_sequence_digit(source[index]) {
            assert(!sequence_digit(source@[index as int]));
            return false;
        }
    }
    true
}

/// A numeral read from the left: the finished large sections, the section being read, and a digit
/// that no unit has followed yet.
pub struct NumberState {
    pub total: nat,
    pub section: nat,
    pub number: Option<nat>,
}

/// `number`, or `default` where there is none.
pub open spec fn number_or(number: Option<nat>, default: nat) -> nat {
    match number {
        Some(number) => number,
        None => default,
    }
}

/// The state after one more character; `None` where it is no part of a numeral.
pub open spec fn number_step(state: NumberState, character: char) -> Option<NumberState> {
    if digit(character) is Some {
        Some(NumberState { number: Some(digit(character)->0 as nat), ..state })
    } else if small(character) is Some {
        Some(
            NumberState {
                total: state.total,
                section: state.section + number_or(state.number, 1) * (small(character)->0 as nat),
                number: None,
            },
        )
    } else if large(character) is Some {
        Some(
            NumberState {
                total: state.total + (state.section + number_or(state.number, 0)) * (large(
                    character,
                )->0 as nat),
                section: 0,
                number: None,
            },
        )
    } else {
        None
    }
}

/// The state after the first `count` characters.
pub open spec fn number_state(source: Seq<char>, count: int) -> Option<NumberState>
    decreases count,
{
    if count <= 0 {
        Some(NumberState { total: 0, section: 0, number: None })
    } else {
        match number_state(source, count - 1) {
            Some(state) => number_step(state, source[count - 1]),
            None => None,
        }
    }
}

/// The value of the first `count` digits in positional notation.
pub open spec fn positional(source: Seq<char>, count: int) -> Option<nat>
    decreases count,
{
    if count <= 0 {
        Some(0)
    } else {
        match (positional(source, count - 1), digit(source[count - 1])) {
            (Some(value), Some(digit)) => Some((value * 10 + digit) as nat),
            _ => None,
        }
    }
}

/// Some character is a unit.
pub open spec fn has_unit(source: Seq<char>) -> bool {
    exists|index: int|
        0 <= index < source.len() && (small(#[trigger] source[index]) is Some || large(
            source[index],
        ) is Some)
}

/// The number that a numeral names, with no limit on its size.
pub open spec fn unbounded_number(source: Seq<char>) -> Option<nat> {
    if source.len() == 0 {
        None
    } else if !has_unit(source) {
        positional(source, source.len() as int)
    } else {
        match number_state(source, source.len() as int) {
            Some(state) => Some(state.total + state.section + number_or(state.number, 0)),
            None => None,
        }
    }
}

/// The number that a numeral names, where it fits a 64-bit integer.
pub open spec fn chinese_number(source: Seq<char>) -> Option<nat> {
    match unbounded_number(source) {
        Some(value) => if value <= i64::MAX {
            Some(value)
        } else {
            None
        },
        None => None,
    }
}

proof fn lemma_positional_grows(source: Seq<char>, count: int, length: int)
    requires
        0 <= count <= length,
    ensures
        positional(source, length) is Some ==> positional(source, count) is Some && positional(
            source,
            count,
        )->0 <= positional(source, length)->0,
    decreases length - count,
{
    if count < length {
        lemma_positional_grows(source, count, length - 1);
    }
}

proof fn lemma_sections_grow(source: Seq<char>, count: int, length: int)
    requires
        0 <= count <= length,
    ensures
        number_state(source, length) is Some ==> number_state(source, count) is Some && ({
            let early = number_state(source, count)->0;
            let late = number_state(source, length)->0;
            early.total + early.section <= late.total + late.section
        }),
    decreases length - count,
{
    if count < length {
        lemma_sections_grow(source, count, length - 1);
        if number_state(source, length) is Some {
            let state = number_state(source, length - 1)->0;
            let character = source[length - 1];
            if digit(character) is None && small(character) is None {
                let section = state.section + number_or(state.number, 0);
                let unit = large(character)->0 as nat;
                assert(section * unit >= section) by (nonlinear_arith)
                    requires
                        unit >= 1,
                        section >= 0,
                ;
            }
        }
    }
}

fn contains_unit(source: &[char]) -> (result: bool)
    ensures
        result == has_unit(source@),
{
    for index in 0..source.len()
        invariant
            forall|earlier: int|
                0 <= earlier < index ==> small(#[trigger] source@[earlier]) is None && large(
                    source@[earlier],
                ) is None,
    {
        if small_unit(source[index]).is_some() || large_unit(source[index]).is_some() {
            assert(small(source@[index as int]) is Some || large(source@[index as int]) is Some);
            return true;
        }
    }
    false
}

fn parse_positional(source: &[char]) -> (value: Option<i64>)
    ensures
        match positional(source@, source@.len() as int) {
            Some(number) => if number <= i64::MAX {
                value == Some(number as i64)
            } else {
                value is None
            },
            None => value is None,
        },
{
    let mut value: i64 = 0;
    for index in 0..source.len()
        invariant
            positional(source@, index as int) == Some(value as nat),
            value >= 0,
    {
        proof {
            lemma_positional_grows(source@, index + 1, source@.len() as int);
        }
        let digit: i64 = match digit_value(source[index]) {
            Some(digit) => digit,
            None => {
                return None;
            },
        };
        value = match value.checked_mul(10) {
            Some(shifted) => match shifted.checked_add(digit) {
                Some(next) => next,
                None => {
                    return None;
                },
            },
            None => {
                return None;
            },
        };
    }
    Some(value)
}

/// A numeral being read from the left, in machine integers.
struct NumeralReader {
    total: i64,
    section: i64,
    number: Option<i64>,
}

impl NumeralReader {
    spec fn state(self) -> NumberState {
        NumberState {
            total: self.total as nat,
            section: self.section as nat,
            number: match self.number {
                Some(number) => Some(number as nat),
                None => None,
            },
        }
    }

    spec fn valid(self) -> bool {
        &&& self.total >= 0
        &&& self.section >= 0
        &&& self.number matches Some(number) ==> 0 <= number <= 9
    }

    /// Multiplies the pending digit into the section.
    fn close_small(&self, unit: i64) -> (next: Option<Self>)
        requires
            self.valid(),
            1 <= unit <= 1_000,
        ensures
            match next {
                Some(next) => next.valid() && next.state() == (NumberState {
                    total: self.state().total,
                    section: self.state().section + number_or(self.state().number, 1)
                        * unit as nat,
                    number: None,
                }),
                None => self.section + number_or(self.state().number, 1) * unit as nat > i64::MAX,
            },
    {
        let count: i64 = match self.number {
            Some(number) => number,
            None => 1,
        };
        assert(0 <= count * unit <= 9_000) by (nonlinear_arith)
            requires
                0 <= count <= 9,
                1 <= unit <= 1_000,
        ;
        match self.section.checked_add(count * unit) {
            Some(section) => Some(NumeralReader { total: self.total, section, number: None }),
            None => None,
        }
    }

    /// Multiplies the section into the total.
    fn close_large(&self, unit: i64) -> (next: Option<Self>)
        requires
            self.valid(),
            1 <= unit,
        ensures
            match next {
                Some(next) => next.valid() && next.state() == (NumberState {
                    total: self.state().total + (self.state().section + number_or(
                        self.state().number,
                        0,
                    )) * unit as nat,
                    section: 0,
                    number: None,
                }),
                None => self.total + (self.section + number_or(self.state().number, 0))
                    * unit as nat > i64::MAX,
            },
    {
        let count: i64 = match self.number {
            Some(number) => number,
            None => 0,
        };
        let ghost whole = self.section + count;
        assert(whole * unit >= whole) by (nonlinear_arith)
            requires
                unit >= 1,
                whole >= 0,
        ;
        match self.section.checked_add(count) {
            Some(filled) => match filled.checked_mul(unit) {
                Some(scaled) => match self.total.checked_add(scaled) {
                    Some(total) => Some(NumeralReader { total, section: 0, number: None }),
                    None => None,
                },
                None => None,
            },
            None => None,
        }
    }

    /// Takes one more character.
    fn step(&self, character: char) -> (next: Option<Self>)
        requires
            self.valid(),
        ensures
            match number_step(self.state(), character) {
                Some(state) => match next {
                    Some(next) => next.valid() && next.state() == state,
                    None => state.total + state.section > i64::MAX,
                },
                None => next is None,
            },
    {
        if let Some(digit) = digit_value(character) {
            Some(NumeralReader { total: self.total, section: self.section, number: Some(digit) })
        } else if let Some(unit) = small_unit(character) {
            self.close_small(unit)
        } else if let Some(unit) = large_unit(character) {
            self.close_large(unit)
        } else {
            None
        }
    }
}

/// Reads a Chinese numeral.
pub fn parse_chinese_number(source: &[char]) -> (value: Option<i64>)
    ensures
        match chinese_number(source@) {
            Some(number) => value == Some(number as i64),
            None => value is None,
        },
        value is Some ==> value->0 >= 0,
{
    if source.len() == 0 {
        return None;
    }
    if !contains_unit(source) {
        return parse_positional(source);
    }
    let mut reader = NumeralReader { total: 0, section: 0, number: None };
    for index in 0..source.len()
        invariant
            source@.len() > 0,
            has_unit(source@),
            reader.valid(),
            number_state(source@, index as int) == Some(reader.state()),
    {
        proof {
            lemma_sections_grow(source@, index + 1, source@.len() as int);
        }
        match reader.step(source[index]) {
            Some(next) => {
                reader = next;
            },
            None => {
                return None;
            },
        }
    }
    let last: i64 = match reader.number {
        Some(number) => number,
        None => 0,
    };
    match reader.total.checked_add(reader.section) {
        Some(sum) => sum.checked_add(last),
        None => None,
    }
}

/// A value below ten thousand stands as it is; a larger one has its digits grouped by commas.
pub open spec fn number_text(value: nat) -> Seq<char> {
    if value < 10_000 {
        text::decimal(value)
    } else {
        grouped_text(value)
    }
}

/// The decimal numeral of a value with its digits grouped by commas.
pub open spec fn grouped_text(value: nat) -> Seq<char> {
    text::grouped(text::decimal(value), text::decimal(value).len() as int)
}

/// The numeral of a value with a minus sign where it is negative.
pub open spec fn signed(value: int, numeral: Seq<char>) -> Seq<char> {
    if value < 0 {
        seq!['-'] + numeral
    } else {
        numeral
    }
}

/// How far a value is from zero.
pub open spec fn magnitude(value: int) -> nat {
    if value < 0 {
        (-value) as nat
    } else {
        value as nat
    }
}

fn unsigned_abs(value: i64) -> (result: u64)
    ensures
        result == magnitude(value as int),
{
    if value >= 0 {
        value as u64
    } else if value == i64::MIN {
        0x8000_0000_0000_0000
    } else {
        (-value) as u64
    }
}

/// The decimal numeral of a value.
pub fn integer_text(value: i64) -> (numeral: Vec<char>)
    ensures
        numeral@ == signed(value as int, text::decimal(magnitude(value as int))),
{
    let digits: Vec<char> = decimal_text(unsigned_abs(value));
    if value < 0 {
        prepend('-', &digits)
    } else {
        digits
    }
}

/// The decimal numeral of a value with its digits grouped by commas.
pub fn format_grouped(value: i64) -> (numeral: Vec<char>)
    ensures
        numeral@ == signed(value as int, grouped_text(magnitude(value as int))),
{
    let digits: Vec<char> = group_digits(&decimal_text(unsigned_abs(value)));
    if value < 0 {
        prepend('-', &digits)
    } else {
        digits
    }
}

/// The number that decimal digits stand for.
pub open spec fn digits_value(digits: Seq<char>) -> int
    decreases digits.len(),
{
    if digits.len() == 0 {
        0
    } else {
        digits_value(digits.drop_last()) * 10 + (digits.last() as int - 48)
    }
}

/// The number that a numeral stands for, which may have a minus sign.
pub open spec fn numeral_value(numeral: Seq<char>) -> int {
    if numeral.len() > 0 && numeral[0] == '-' {
        -digits_value(numeral.skip(1))
    } else {
        digits_value(numeral)
    }
}

/// A text without its commas.
pub open spec fn without_commas(numeral: Seq<char>) -> Seq<char>
    decreases numeral.len(),
{
    if numeral.len() == 0 {
        numeral
    } else if numeral.last() == ',' {
        without_commas(numeral.drop_last())
    } else {
        without_commas(numeral.drop_last()).push(numeral.last())
    }
}

/// All characters are decimal digits.
pub open spec fn all_decimal(digits: Seq<char>) -> bool {
    forall|index: int| 0 <= index < digits.len() ==> '0' <= #[trigger] digits[index] <= '9'
}

/// A numeral is made of digits, and stands for its value.
pub proof fn lemma_decimal_value(value: nat)
    ensures
        text::decimal(value).len() > 0,
        all_decimal(text::decimal(value)),
        digits_value(text::decimal(value)) == value,
    decreases value,
{
    if value < 10 {
        let numeral = text::decimal(value);
        assert(numeral.drop_last() =~= Seq::empty());
        assert(digits_value(numeral.drop_last()) == 0);
    } else {
        lemma_decimal_value(value / 10);
        let shorter = text::decimal(value / 10);
        let numeral = text::decimal(value);
        assert(numeral.drop_last() =~= shorter);
        assert forall|index: int| 0 <= index < numeral.len() implies '0' <= #[trigger] numeral[index]
            <= '9' by {
            if index < shorter.len() {
                assert(numeral[index] == shorter[index]);
            }
        }
    }
}

/// One to three digits, and after them any number of groups of a comma and three digits.
pub open spec fn in_groups(numeral: Seq<char>) -> bool
    decreases numeral.len(),
{
    let count = numeral.len() as int;
    if count <= 3 {
        count > 0 && all_decimal(numeral)
    } else {
        numeral[count - 4] == ',' && all_decimal(numeral.skip(count - 3)) && in_groups(
            numeral.take(count - 4),
        )
    }
}

/// Without the commas the digits are as before.
proof fn lemma_grouping_keeps_digits(digits: Seq<char>, count: int)
    requires
        all_decimal(digits),
        0 <= count <= digits.len(),
    ensures
        without_commas(text::grouped(digits, count)) == digits.take(count),
    decreases count,
{
    if count > 0 {
        lemma_grouping_keeps_digits(digits, count - 1);
        let before = text::grouped(digits, count - 1);
        let digit = digits[count - 1];
        assert(before.push(',').drop_last() =~= before);
        assert(before.push(',').push(digit).drop_last() =~= before.push(','));
        assert(before.push(digit).drop_last() =~= before);
        assert('0' <= digit <= '9');
        assert(without_commas(before.push(',')) == without_commas(before));
        assert(without_commas(before.push(',').push(digit)) == without_commas(before).push(digit));
        assert(without_commas(before.push(digit)) == without_commas(before).push(digit));
        assert(digits.take(count) =~= digits.take(count - 1).push(digit));
    } else {
        assert(digits.take(count) =~= Seq::empty());
    }
}

/// Where commas stand does not change when three more digits follow.
proof fn lemma_grouping_of_start(digits: Seq<char>, count: int)
    requires
        0 <= count <= digits.len() - 3,
    ensures
        text::grouped(digits, count) == text::grouped(digits.take(digits.len() - 3), count),
    decreases count,
{
    if count > 0 {
        lemma_grouping_of_start(digits, count - 1);
    }
}

/// Digits are grouped by three from their end on.
proof fn lemma_grouped_in_groups(digits: Seq<char>)
    requires
        all_decimal(digits),
        digits.len() > 0,
    ensures
        in_groups(text::grouped(digits, digits.len() as int)),
    decreases digits.len(),
{
    let count = digits.len() as int;
    let numeral = text::grouped(digits, count);
    reveal_with_fuel(text::grouped, 4);
    if count <= 3 {
        assert(numeral =~= digits);
    } else {
        let start = digits.take(count - 3);
        let before = text::grouped(start, count - 3);
        lemma_grouping_of_start(digits, count - 3);
        lemma_grouped_in_groups(start);
        let last = seq![digits[count - 3], digits[count - 2], digits[count - 1]];
        assert(numeral =~= before.push(',') + last);
        assert(numeral.take(numeral.len() - 4) =~= before);
        assert(numeral.skip(numeral.len() - 3) =~= last);
        assert(before.len() > 0);
    }
}

/// A sign in front stays when commas are left out.
proof fn lemma_sign_stays(numeral: Seq<char>)
    ensures
        without_commas(seq!['-'] + numeral) == seq!['-'] + without_commas(numeral),
    decreases numeral.len(),
{
    let all = seq!['-'] + numeral;
    if numeral.len() == 0 {
        assert(all.drop_last() =~= Seq::empty());
        assert(all.last() == '-');
        assert(without_commas(all.drop_last()) =~= Seq::empty());
        assert(without_commas(all) =~= seq!['-']);
        assert(seq!['-'] + without_commas(numeral) =~= seq!['-']);
    } else {
        lemma_sign_stays(numeral.drop_last());
        assert(all.drop_last() =~= seq!['-'] + numeral.drop_last());
        assert(all.last() == numeral.last());
        assert(without_commas(all) =~= seq!['-'] + without_commas(numeral));
    }
}

/// A grouped numeral has one to three digits before the first comma and three after each, and
/// without its commas it stands for its value.
pub proof fn law_grouping_keeps_the_value(value: int)
    ensures
        in_groups(grouped_text(magnitude(value))),
        without_commas(signed(value, grouped_text(magnitude(value)))) == signed(
            value,
            text::decimal(magnitude(value)),
        ),
        numeral_value(without_commas(signed(value, grouped_text(magnitude(value))))) == value,
{
    let digits = text::decimal(magnitude(value));
    let numeral = grouped_text(magnitude(value));
    lemma_decimal_value(magnitude(value));
    lemma_grouping_keeps_digits(digits, digits.len() as int);
    lemma_grouped_in_groups(digits);
    assert(digits.take(digits.len() as int) =~= digits);
    assert('0' <= digits[0]);
    if value < 0 {
        lemma_sign_stays(numeral);
        assert((seq!['-'] + digits).skip(1) =~= digits);
    }
}

/// The numeral of a value, grouped by commas from ten thousand on.
pub fn format_number(value: i64) -> (numeral: Vec<char>)
    ensures
        numeral@ == signed(value as int, number_text(magnitude(value as int))),
{
    if unsigned_abs(value) < 10_000 {
        integer_text(value)
    } else {
        format_grouped(value)
    }
}

/// Each digit character as a decimal digit; other characters stay.
pub open spec fn digits_of(source: Seq<char>) -> Seq<char> {
    Seq::new(
        source.len(),
        |index: int|
            match digit(source[index]) {
                Some(value) => text::digit_char(value),
                None => source[index],
            },
    )
}

pub fn digit_sequence(source: &[char]) -> (result: Vec<char>)
    ensures
        result@ == digits_of(source@),
{
    let mut result: Vec<char> = Vec::new();
    for index in 0..source.len()
        invariant
            result@ == digits_of(source@).take(index as int),
    {
        match digit_value(source[index]) {
            Some(value) => result.push((48 + value as u8) as char),
            None => result.push(source[index]),
        }
    }
    assert(digits_of(source@).take(source@.len() as int) =~= digits_of(source@));
    result
}

/// The large units that stay as characters behind a coefficient.
pub open spec fn kept_unit(character: char) -> bool {
    character == '万' || character == '萬' || character == '亿' || character == '億'
}

/// A numeral that ends in its only `万` or `亿` keeps that unit behind the number before it.
pub open spec fn keeps_unit(source: Seq<char>) -> bool {
    source.len() > 0 && kept_unit(source.last()) && !source.drop_last().contains(source.last())
}

/// What stands before a kept unit; one where nothing does.
pub open spec fn coefficient(source: Seq<char>) -> Seq<char> {
    if source.len() == 1 {
        "一"@
    } else {
        source.drop_last()
    }
}

/// The number before a kept unit, grouped by commas from one thousand on.
pub open spec fn coefficient_text(value: nat) -> Seq<char> {
    if value >= 1_000 {
        grouped_text(value)
    } else {
        text::decimal(value)
    }
}

/// The rendering of a cardinal; a text that names no number stays as it is.
pub open spec fn cardinal_text(source: Seq<char>) -> Seq<char> {
    if keeps_unit(source) && chinese_number(coefficient(source)) is Some {
        coefficient_text(chinese_number(coefficient(source))->0).push(source.last())
    } else {
        match chinese_number(source) {
            Some(value) => number_text(value),
            None => source,
        }
    }
}

fn is_kept_unit(source: &[char]) -> (result: bool)
    ensures
        result == keeps_unit(source@),
{
    if source.len() == 0 {
        return false;
    }
    let length: usize = source.len() - 1;
    let suffix: char = source[length];
    if suffix != '万' && suffix != '萬' && suffix != '亿' && suffix != '億' {
        return false;
    }
    for index in 0..length
        invariant
            length == source@.len() - 1,
            suffix == source@.last(),
            forall|earlier: int| 0 <= earlier < index ==> source@[earlier] != suffix,
    {
        if source[index] == suffix {
            assert(source@.drop_last()[index as int] == suffix);
            return false;
        }
    }
    true
}

/// Renders a cardinal.
pub fn cardinal(source: &[char]) -> (result: Vec<char>)
    ensures
        result@ == cardinal_text(source@),
{
    if is_kept_unit(source) {
        let before: Vec<char> = if source.len() == 1 {
            chars_of("一")
        } else {
            part(source, 0, source.len() - 1)
        };
        assert(before@ =~= coefficient(source@));
        if let Some(value) = parse_chinese_number(&before) {
            let mut rendered: Vec<char> = if value >= 1_000 {
                format_grouped(value)
            } else {
                integer_text(value)
            };
            rendered.push(source[source.len() - 1]);
            return rendered;
        }
    }
    match parse_chinese_number(source) {
        Some(value) => format_number(value),
        None => part(source, 0, source.len()),
    }
}

/// The position of the first hour mark.
pub open spec fn hour_mark(source: Seq<char>, index: int) -> int
    decreases source.len() - index,
{
    if index >= source.len() || source[index] == '点' || source[index] == '时' {
        index
    } else {
        hour_mark(source, index + 1)
    }
}

/// A text ends in the given character.
pub open spec fn ends_in(source: Seq<char>, character: char) -> bool {
    source.len() > 0 && source.last() == character
}

/// The minutes without a unit at their end.
pub open spec fn bare_minutes(minutes: Seq<char>) -> Seq<char> {
    if ends_in(minutes, '钟') || ends_in(minutes, '分') {
        minutes.drop_last()
    } else {
        minutes
    }
}

/// How many minutes a text without unit names.
pub open spec fn minute_count(minutes: Seq<char>) -> Option<nat> {
    if minutes == "半"@ {
        Some(30)
    } else if minutes == "一刻"@ {
        Some(15)
    } else if minutes == "三刻"@ {
        Some(45)
    } else {
        chinese_number(minutes)
    }
}

/// A text made of the digits and commas of a rendered number.
pub open spec fn plain_number(numeral: Seq<char>) -> bool {
    forall|index: int|
        0 <= index < numeral.len() ==> is_ascii_digit(#[trigger] numeral[index]) || numeral[index]
            == ','
}

/// The rendering of a time of day; a text that is none stays as it is.
pub open spec fn time_text(source: Seq<char>) -> Seq<char> {
    let mark = hour_mark(source, 0);
    let hour = cardinal_text(source.take(mark));
    let minutes = source.skip(mark + 1);
    let with_unit = ends_in(minutes, '钟') || ends_in(minutes, '分');
    let bare = bare_minutes(minutes);
    if mark >= source.len() || mark == 0 || !plain_number(hour) {
        source
    } else if minutes.len() == 0 || minutes == "整"@ {
        hour.push(source[mark])
    } else if (bare == "零"@ || bare == "〇"@ || bare == "洞"@) && !with_unit {
        source
    } else {
        match minute_count(bare) {
            Some(minute) => hour + seq![':'] + text::two_digits(minute),
            None => source,
        }
    }
}

fn is_plain_number(numeral: &[char]) -> (result: bool)
    ensures
        result == plain_number(numeral@),
{
    for index in 0..numeral.len()
        invariant
            forall|earlier: int|
                0 <= earlier < index ==> is_ascii_digit(#[trigger] numeral@[earlier])
                    || numeral@[earlier] == ',',
    {
        if !is_ascii_digit(numeral[index]) && numeral[index] != ',' {
            assert(!is_ascii_digit(numeral@[index as int]));
            return false;
        }
    }
    true
}

fn parse_minutes(minutes: &[char]) -> (value: Option<i64>)
    ensures
        match minute_count(minutes@) {
            Some(minute) => value == Some(minute as i64) && minute <= i64::MAX,
            None => value is None,
        },
        value is Some ==> value->0 >= 0,
{
    if is_text(minutes, "半") {
        Some(30)
    } else if is_text(minutes, "一刻") {
        Some(15)
    } else if is_text(minutes, "三刻") {
        Some(45)
    } else {
        parse_chinese_number(minutes)
    }
}

/// Renders a time of day.
pub fn time(source: &[char]) -> (result: Vec<char>)
    ensures
        result@ == time_text(source@),
{
    let mut mark: usize = 0;
    while mark < source.len() && source[mark] != '点' && source[mark] != '时'
        invariant
            mark <= source.len(),
            hour_mark(source@, 0) == hour_mark(source@, mark as int),
        decreases source.len() - mark,
    {
        mark = mark + 1;
    }
    let unchanged: Vec<char> = part(source, 0, source.len());
    assert(unchanged@ =~= source@);
    if mark >= source.len() || mark == 0 {
        return unchanged;
    }
    let hour_source: Vec<char> = part(source, 0, mark);
    assert(hour_source@ =~= source@.take(mark as int));
    let mut hour: Vec<char> = cardinal(&hour_source);
    if !is_plain_number(&hour) {
        return unchanged;
    }
    let mut minutes: Vec<char> = part(source, mark + 1, source.len());
    let ghost with_unit_source = minutes@;
    assert(minutes@ =~= source@.skip(mark + 1));
    if minutes.len() == 0 || is_text(&minutes, "整") {
        hour.push(source[mark]);
        return hour;
    }
    let with_unit: bool = minutes[minutes.len() - 1] == '钟' || minutes[minutes.len() - 1] == '分';
    if with_unit {
        minutes.pop();
    }
    assert(minutes@ =~= bare_minutes(with_unit_source));
    if !with_unit && (is_text(&minutes, "零") || is_text(&minutes, "〇") || is_text(
        &minutes,
        "洞",
    )) {
        return unchanged;
    }
    match parse_minutes(&minutes) {
        Some(minute) => {
            let mut rendered: Vec<char> = hour;
            rendered.push(':');
            push_chars(&mut rendered, &two_digit_text(minute as u64));
            assert(rendered@ =~= hour@ + seq![':'] + text::two_digits(minute as nat));
            rendered
        },
        None => unchanged,
    }
}

/// Digits have no commas.
proof fn lemma_no_commas(digits: Seq<char>)
    requires
        all_decimal(digits),
    ensures
        without_commas(digits) == digits,
    decreases digits.len(),
{
    if digits.len() > 0 {
        assert('0' <= digits[digits.len() - 1] <= '9');
        assert forall|index: int| 0 <= index < digits.drop_last().len() implies '0'
            <= #[trigger] digits.drop_last()[index] <= '9' by {
            assert(digits.drop_last()[index] == digits[index]);
        }
        lemma_no_commas(digits.drop_last());
        assert(digits.drop_last().push(digits.last()) =~= digits);
    }
}

/// A numeral in groups has nothing but digits and commas.
proof fn lemma_groups_are_plain(numeral: Seq<char>)
    requires
        in_groups(numeral),
    ensures
        plain_number(numeral),
        numeral.len() > 0,
    decreases numeral.len(),
{
    let count = numeral.len() as int;
    if count > 3 {
        lemma_groups_are_plain(numeral.take(count - 4));
        assert forall|index: int| 0 <= index < count implies is_ascii_digit(
            #[trigger] numeral[index],
        ) || numeral[index] == ',' by {
            if index < count - 4 {
                assert(numeral.take(count - 4)[index] == numeral[index]);
            } else if index > count - 4 {
                assert(numeral.skip(count - 3)[index - (count - 3)] == numeral[index]);
            }
        }
    }
}

/// A text of digits and commas stands for a value.
pub open spec fn reads(numeral: Seq<char>, value: int) -> bool {
    numeral.len() > 0 && plain_number(numeral) && digits_value(without_commas(numeral)) == value
}

/// Every rendering of a number stands for its value, whether its digits are grouped or not, and two
/// digits do so too.
pub proof fn law_numbers_read_as_their_value(value: nat)
    ensures
        reads(text::decimal(value), value as int),
        reads(number_text(value), value as int),
        reads(coefficient_text(value), value as int),
        reads(text::two_digits(value), value as int),
        all_decimal(text::two_digits(value)),
        text::two_digits(value).len() >= 2,
        value < 100 ==> text::two_digits(value).len() == 2,
{
    let digits = text::decimal(value);
    lemma_decimal_value(value);
    lemma_no_commas(digits);
    law_grouping_keeps_the_value(value as int);
    lemma_groups_are_plain(grouped_text(value));
    assert('0' <= grouped_text(value)[0] || grouped_text(value)[0] == ',');
    assert(signed(value as int, grouped_text(value)) == grouped_text(value));
    assert(digits_value(without_commas(grouped_text(value))) == value);
    assert(plain_number(digits)) by {
        assert forall|index: int| 0 <= index < digits.len() implies is_ascii_digit(
            #[trigger] digits[index],
        ) by {}
    }
    if value < 10 {
        let two = text::two_digits(value);
        assert(digits =~= seq![text::digit_char(value as int)]);
        assert(two =~= seq!['0', text::digit_char(value as int)]);
        lemma_no_commas(two);
        assert(two.drop_last() =~= seq!['0']);
        assert(seq!['0'].drop_last() =~= Seq::empty());
        reveal_with_fuel(digits_value, 3);
        assert(digits_value(two) == value);
    } else {
        assert(digits.len() >= 2) by {
            lemma_decimal_value(value / 10);
        }
        if value < 100 {
            assert(text::decimal(value / 10).len() == 1);
        }
    }
}

/// What stands for a numeral: its value, or the value of what comes before a unit that it keeps.
pub open spec fn stands_for(rendering: Seq<char>, source: Seq<char>) -> bool {
    if keeps_unit(source) && chinese_number(coefficient(source)) is Some {
        rendering.len() > 1 && rendering.last() == source.last() && reads(
            rendering.drop_last(),
            chinese_number(coefficient(source))->0 as int,
        )
    } else {
        chinese_number(source) is Some && reads(rendering, chinese_number(source)->0 as int)
    }
}

/// The rendering of a cardinal stands for its value.
pub proof fn law_cardinals_read_as_their_value(source: Seq<char>)
    requires
        chinese_number(source) is Some,
    ensures
        stands_for(cardinal_text(source), source),
{
    law_numbers_read_as_their_value(chinese_number(source)->0);
    if keeps_unit(source) && chinese_number(coefficient(source)) is Some {
        let before = coefficient_text(chinese_number(coefficient(source))->0);
        law_numbers_read_as_their_value(chinese_number(coefficient(source))->0);
        assert(before.push(source.last()).drop_last() =~= before);
    }
}

/// The digits of a sequence of digits stand for its value, one for each character.
pub proof fn law_digit_sequences_read_as_their_value(source: Seq<char>)
    requires
        forall|index: int| 0 <= index < source.len() ==> digit(#[trigger] source[index]) is Some,
    ensures
        digits_of(source).len() == source.len(),
        all_decimal(digits_of(source)),
        positional(source, source.len() as int) == Some(digits_value(digits_of(source)) as nat),
        digits_value(digits_of(source)) >= 0,
    decreases source.len(),
{
    if source.len() > 0 {
        let shorter = source.drop_last();
        assert forall|index: int| 0 <= index < shorter.len() implies digit(
            #[trigger] shorter[index],
        ) is Some by {
            assert(shorter[index] == source[index]);
        }
        law_digit_sequences_read_as_their_value(shorter);
        assert(digits_of(source).drop_last() =~= digits_of(shorter));
        lemma_positional_prefix(source, shorter, shorter.len() as int);
        assert(digit(source[source.len() - 1]) is Some);
        assert forall|index: int| 0 <= index < source.len() implies '0' <= #[trigger] digits_of(
            source,
        )[index] <= '9' by {
            assert(digit(source[index]) is Some);
        }
    } else {
        assert(digits_of(source) =~= Seq::empty());
    }
}

proof fn lemma_positional_prefix(source: Seq<char>, other: Seq<char>, count: int)
    requires
        0 <= count <= source.len(),
        count <= other.len(),
        forall|index: int| 0 <= index < count ==> source[index] == other[index],
    ensures
        positional(source, count) == positional(other, count),
    decreases count,
{
    if count > 0 {
        lemma_positional_prefix(source, other, count - 1);
    }
}

/// A numeral has nothing but digits and units.
pub proof fn lemma_numerals_have_features(source: Seq<char>)
    requires
        chinese_number(source) is Some,
    ensures
        source.len() > 0,
        forall|index: int| 0 <= index < source.len() ==> numeric_feature(#[trigger] source[index]),
{
    assert forall|index: int| 0 <= index < source.len() implies numeric_feature(
        #[trigger] source[index],
    ) by {
        lemma_positional_grows(source, index + 1, source.len() as int);
        lemma_sections_grow(source, index + 1, source.len() as int);
    }
}

proof fn lemma_hour_mark(source: Seq<char>, index: int, mark: int)
    requires
        0 <= index <= mark < source.len(),
        source[mark] == '点' || source[mark] == '时',
        forall|at: int| index <= at < mark ==> source[at] != '点' && source[at] != '时',
    ensures
        hour_mark(source, index) == mark,
    decreases mark - index,
{
    if index < mark {
        lemma_hour_mark(source, index + 1, mark);
    }
}

/// How a number of minutes is spoken: as a number with or without a unit, or in quarters. A bare zero
/// is none.
pub open spec fn spoken_minutes(minutes: Seq<char>, count: nat) -> bool {
    ||| chinese_number(minutes) == Some(count) && minutes != "零"@ && minutes != "〇"@ && minutes
        != "洞"@
    ||| minutes.len() > 0 && (minutes.last() == '分' || minutes.last() == '钟')
        && chinese_number(minutes.drop_last()) == Some(count)
    ||| minutes == "半"@ && count == 30
    ||| minutes == "一刻"@ && count == 15
    ||| minutes == "三刻"@ && count == 45
}

/// A time of day stands for its hour and its minutes: before the colon stands the number that comes
/// before the hour mark, and behind it, in at least two digits, the number that comes after the
/// mark. A half is thirty minutes, and a quarter is fifteen of them.
pub proof fn law_times_read_as_hour_and_minute(
    hour: Seq<char>,
    mark: char,
    minutes: Seq<char>,
    count: nat,
) -> (colon: int)
    requires
        chinese_number(hour) is Some,
        !keeps_unit(hour),
        mark == '点' || mark == '时',
        spoken_minutes(minutes, count),
    ensures
        ({
            let rendering = time_text(hour.push(mark) + minutes);
            &&& 0 < colon < rendering.len() - 2
            &&& rendering[colon] == ':'
            &&& reads(rendering.take(colon), chinese_number(hour)->0 as int)
            &&& reads(rendering.skip(colon + 1), count as int)
            &&& count < 100 ==> rendering.skip(colon + 1).len() == 2
        }),
{
    reveal_strlit("零");
    reveal_strlit("〇");
    reveal_strlit("洞");
    reveal_strlit("半");
    reveal_strlit("整");
    reveal_strlit("一刻");
    reveal_strlit("三刻");
    let source = hour.push(mark) + minutes;
    let place = hour.len() as int;
    lemma_numerals_have_features(hour);
    assert forall|at: int| 0 <= at < place implies source[at] != '点' && source[at] != '时' by {
        assert(source[at] == hour[at]);
        assert(numeric_feature(hour[at]));
    }
    lemma_hour_mark(source, 0, place);
    assert(source.take(place) =~= hour);
    assert(source.skip(place + 1) =~= minutes);
    law_cardinals_read_as_their_value(hour);
    law_numbers_read_as_their_value(count);
    let bare = bare_minutes(minutes);
    if chinese_number(minutes) == Some(count) {
        lemma_numerals_have_features(minutes);
        assert(numeric_feature(minutes[minutes.len() - 1]));
        assert(bare == minutes);
        assert(numeric_feature(minutes[0]));
    } else if ends_in(minutes, '分') || ends_in(minutes, '钟') {
        lemma_numerals_have_features(bare);
        assert(numeric_feature(bare[bare.len() - 1]));
        assert(numeric_feature(bare[0]));
    } else {
        assert(bare == minutes);
    }
    assert(minutes != "整"@) by {
        if minutes == "整"@ {
            assert(minutes[0] == '整');
        }
    }
    assert(minute_count(bare) == Some(count)) by {
        if bare.len() == 2 {
            assert(numeric_feature(bare[1]) || bare[1] == '刻');
        }
    }
    let before = cardinal_text(hour);
    let rendering = time_text(source);
    assert(rendering == before + seq![':'] + text::two_digits(count));
    assert(rendering.take(before.len() as int) =~= before);
    assert(rendering.skip(before.len() as int + 1) =~= text::two_digits(count));
    before.len() as int
}

/// How a digit is spoken.
pub open spec fn spoken_digit(value: int) -> char {
    if value == 0 {
        '零'
    } else if value == 1 {
        '一'
    } else if value == 2 {
        '二'
    } else if value == 3 {
        '三'
    } else if value == 4 {
        '四'
    } else if value == 5 {
        '五'
    } else if value == 6 {
        '六'
    } else if value == 7 {
        '七'
    } else if value == 8 {
        '八'
    } else {
        '九'
    }
}

/// How a value below ten times the place is spoken, place by place. A zero is spoken for places that
/// are left out inside of a number.
pub open spec fn spoken_places(value: int, place: int, started: bool, gap: bool) -> Seq<char>
    decreases place,
{
    if value <= 0 || place <= 0 {
        Seq::empty()
    } else if value / place == 0 {
        spoken_places(value, place / 10, started, started)
    } else {
        let zero = if gap {
            seq!['零']
        } else {
            Seq::empty()
        };
        if place == 1 {
            zero.push(spoken_digit(value))
        } else {
            zero.push(spoken_digit(value / place)).push(
                if place == 10 {
                    '十'
                } else if place == 100 {
                    '百'
                } else {
                    '千'
                },
            ) + spoken_places(value % place, place / 10, true, false)
        }
    }
}

/// How a value below ten thousand times the unit is spoken, four places at a time.
pub open spec fn spoken_sections(value: int, unit: int, started: bool) -> Seq<char>
    decreases unit,
{
    if value <= 0 || unit <= 0 {
        Seq::empty()
    } else if unit == 1 {
        spoken_places(value, 1_000, started, false)
    } else if value / unit == 0 {
        spoken_sections(value, unit / 10_000, started)
    } else {
        spoken_places(value / unit, 1_000, started, false).push(
            if unit == 10_000 {
                '万'
            } else if unit == 100_000_000 {
                '亿'
            } else {
                '兆'
            },
        ) + spoken_sections(value % unit, unit / 10_000, true)
    }
}

/// How a number is spoken.
pub open spec fn spoken(value: int) -> Seq<char> {
    if value == 0 {
        seq!['零']
    } else {
        spoken_sections(value, 1_000_000_000_000, false)
    }
}

proof fn lemma_state_prefix(source: Seq<char>, other: Seq<char>, count: int)
    requires
        0 <= count <= source.len(),
        count <= other.len(),
        forall|index: int| 0 <= index < count ==> source[index] == other[index],
    ensures
        number_state(source, count) == number_state(other, count),
    decreases count,
{
    if count > 0 {
        lemma_state_prefix(source, other, count - 1);
    }
}

/// The state after one more character.
proof fn lemma_state_push(source: Seq<char>, character: char)
    requires
        number_state(source, source.len() as int) is Some,
    ensures
        number_state(source.push(character), source.len() as int + 1) == number_step(
            number_state(source, source.len() as int)->0,
            character,
        ),
{
    lemma_state_prefix(source, source.push(character), source.len() as int);
}

/// A unit behind a digit adds as much to the section as the two name together.
proof fn lemma_small_step(state: NumberState, character: char, count: nat, place: nat)
    requires
        digit(character) is None,
        small(character) == Some(place as int),
        number_or(state.number, 1) == count,
    ensures
        number_step(state, character) == Some(
            NumberState {
                total: state.total,
                section: state.section + count * place,
                number: None,
            },
        ),
{
}

/// A value is its multiple of a unit and what is left over.
proof fn lemma_parted(value: int, unit: int, limit: int)
    requires
        unit > 0,
        0 <= value < limit * unit,
    ensures
        value == (value / unit) * unit + value % unit,
        0 <= value / unit < limit,
        0 <= value % unit < unit,
        value / unit == 0 ==> value < unit,
{
    lemma_fundamental_div_mod(value, unit);
    lemma_mod_bound(value, unit);
    let top = value / unit;
    assert(0 <= top < limit && (value / unit) * unit == unit * (value / unit)) by (nonlinear_arith)
        requires
            value == unit * top + value % unit,
            0 <= value % unit < unit,
            0 <= value < limit * unit,
            unit > 0,
            top == value / unit,
    ;
}

/// Spoken places add their value to the section that is read.
#[verifier::rlimit(40)]
proof fn lemma_spoken_places(
    before: Seq<char>,
    state: NumberState,
    value: int,
    place: int,
    started: bool,
    gap: bool,
)
    requires
        number_state(before, before.len() as int) == Some(state),
        state.number is None,
        place == 1 || place == 10 || place == 100 || place == 1_000,
        0 <= value < 10 * place,
    ensures
        ({
            let source = before + spoken_places(value, place, started, gap);
            &&& number_state(source, source.len() as int) is Some
            &&& ({
                let after = number_state(source, source.len() as int)->0;
                &&& after.total == state.total
                &&& after.section + number_or(after.number, 0) == state.section + value
            })
            &&& value >= 10 ==> has_unit(spoken_places(value, place, started, gap))
            &&& value > 0 ==> spoken_places(value, place, started, gap).len() > 0
        }),
    decreases place,
{
    let part = spoken_places(value, place, started, gap);
    lemma_parted(value, place, 10);
    if value == 0 {
        assert(before + part =~= before);
    } else if value / place == 0 {
        lemma_spoken_places(before, state, value, place / 10, started, started);
    } else {
        let top = value / place;
        let rest = value % place;
        assert(digit('零') == Some(0int));
        let zero = if gap {
            seq!['零']
        } else {
            Seq::empty()
        };
        let first = before + zero;
        if gap {
            lemma_state_push(before, '零');
            assert(first =~= before.push('零'));
        } else {
            assert(first =~= before);
        }
        let with_digit = first.push(spoken_digit(top));
        lemma_state_push(first, spoken_digit(top));
        assert(digit(spoken_digit(top)) == Some(top));
        if place == 1 {
            assert(before + part =~= with_digit);
        } else {
            let unit = if place == 10 {
                '十'
            } else if place == 100 {
                '百'
            } else {
                '千'
            };
            let with_unit = with_digit.push(unit);
            assert(small(unit) == Some(place) && digit(unit) is None);
            lemma_state_push(with_digit, unit);
            lemma_small_step(
                number_state(with_digit, with_digit.len() as int)->0,
                unit,
                top as nat,
                place as nat,
            );
            let read = number_state(with_unit, with_unit.len() as int)->0;
            assert(read.section == state.section + (top as nat) * (place as nat));
            lemma_spoken_places(with_unit, read, rest, place / 10, true, false);
            assert(before + part =~= with_unit + spoken_places(rest, place / 10, true, false));
            assert(part[zero.len() as int + 1] == unit);
        }
    }
}

/// Spoken sections add their value to what was read.
proof fn lemma_spoken_sections(
    before: Seq<char>,
    state: NumberState,
    value: int,
    unit: int,
    started: bool,
)
    requires
        number_state(before, before.len() as int) == Some(state),
        state.number is None,
        state.section == 0,
        unit == 1 || unit == 10_000 || unit == 100_000_000 || unit == 1_000_000_000_000,
        0 <= value < 10_000 * unit,
    ensures
        ({
            let source = before + spoken_sections(value, unit, started);
            &&& number_state(source, source.len() as int) is Some
            &&& ({
                let after = number_state(source, source.len() as int)->0;
                after.total + after.section + number_or(after.number, 0) == state.total + value
            })
            &&& value >= 10 ==> has_unit(spoken_sections(value, unit, started))
            &&& value > 0 ==> spoken_sections(value, unit, started).len() > 0
        }),
    decreases unit,
{
    let part = spoken_sections(value, unit, started);
    lemma_parted(value, unit, 10_000);
    if value == 0 {
        assert(before + part =~= before);
    } else if unit == 1 {
        lemma_spoken_places(before, state, value, 1_000, started, false);
    } else if value / unit == 0 {
        lemma_spoken_sections(before, state, value, unit / 10_000, started);
    } else {
        let top = value / unit;
        let rest = value % unit;
        let places = spoken_places(top, 1_000, started, false);
        lemma_spoken_places(before, state, top, 1_000, started, false);
        let head = before + places;
        let read = number_state(head, head.len() as int)->0;
        let name = if unit == 10_000 {
            '万'
        } else if unit == 100_000_000 {
            '亿'
        } else {
            '兆'
        };
        assert(large(name) == Some(unit) && digit(name) is None && small(name) is None);
        lemma_state_push(head, name);
        let with_unit = head.push(name);
        let after = number_state(with_unit, with_unit.len() as int)->0;
        assert(after.total == state.total + (top as nat) * (unit as nat));
        assert((top as nat) * (unit as nat) == top * unit);
        lemma_spoken_sections(with_unit, after, rest, unit / 10_000, true);
        assert(before + part =~= with_unit + spoken_sections(rest, unit / 10_000, true));
        assert(part[places.len() as int] == name);
    }
}

/// Every number below ten thousand times the greatest unit reads back from the way it is spoken.
pub proof fn law_spoken_numbers_read_back(value: int)
    requires
        0 <= value < 10_000_000_000_000_000,
    ensures
        chinese_number(spoken(value)) == Some(value as nat),
{
    let source = spoken(value);
    if value == 0 {
        assert(source[0] == '零');
        assert(digit(source[0]) == Some(0int));
        assert(!has_unit(source));
        reveal_with_fuel(positional, 2);
    } else {
        let start = NumberState { total: 0, section: 0, number: None };
        assert(number_state(Seq::empty(), 0) == Some(start));
        lemma_spoken_sections(Seq::empty(), start, value, 1_000_000_000_000, false);
        assert(Seq::<char>::empty() + source =~= source);
        if value < 10 {
            reveal_with_fuel(spoken_sections, 5);
            reveal_with_fuel(spoken_places, 5);
            assert(source =~= seq![spoken_digit(value)]);
            assert(digit(source[0]) == Some(value));
            assert(small(source[0]) is None && large(source[0]) is None);
            assert(!has_unit(source));
            reveal_with_fuel(positional, 2);
        }
    }
}

/// From ten to nineteen the one may be left out.
pub proof fn law_ten_needs_no_one(value: int)
    requires
        10 <= value < 20,
    ensures
        chinese_number(spoken(value).skip(1)) == Some(value as nat),
{
    reveal_with_fuel(spoken_sections, 5);
    reveal_with_fuel(spoken_places, 6);
    let source = spoken(value).skip(1);
    let start = NumberState { total: 0, section: 0, number: None };
    assert(number_state(Seq::empty(), 0) == Some(start));
    lemma_state_push(Seq::empty(), '十');
    let ten = Seq::<char>::empty().push('十');
    assert(small('十') == Some(10int) && digit('十') is None);
    lemma_small_step(start, '十', 1, 10);
    let tens = NumberState { total: 0, section: 10, number: None };
    assert(number_step(start, '十') == Some(tens)) by (nonlinear_arith)
        requires
            number_step(start, '十') == Some(
                NumberState { total: start.total, section: start.section + 1 * 10, number: None },
            ),
            start.total == 0,
            start.section == 0,
            tens == (NumberState { total: 0, section: 10, number: None }),
    ;
    assert(number_state(Seq::<char>::empty(), Seq::<char>::empty().len() as int) == Some(start));
    assert(number_state(ten, 1) == number_step(start, '十'));
    assert(ten.len() == 1);
    if value == 10 {
        assert(source =~= ten);
    } else {
        assert(source =~= ten.push(spoken_digit(value - 10)));
        assert(digit(spoken_digit(value - 10)) == Some(value - 10));
        lemma_state_push(ten, spoken_digit(value - 10));
        assert(number_state(source, 2) == number_step(tens, spoken_digit(value - 10)));
        assert(source.len() == 2);
    }
    assert(source[0] == '十');
    assert(has_unit(source));
    assert(unbounded_number(source) == Some(value as nat));
}

/// A full hour stands for its hour, and keeps its mark.
pub proof fn law_full_hours_keep_their_mark(hour: Seq<char>, mark: char)
    requires
        chinese_number(hour) is Some,
        !keeps_unit(hour),
        mark == '点' || mark == '时',
    ensures
        ({
            let rendering = time_text(hour.push(mark));
            &&& rendering.len() > 1
            &&& rendering.last() == mark
            &&& reads(rendering.drop_last(), chinese_number(hour)->0 as int)
            &&& time_text(hour.push(mark) + "整"@) == rendering
        }),
{
    let place = hour.len() as int;
    let bare = hour.push(mark);
    let exact = hour.push(mark) + "整"@;
    lemma_numerals_have_features(hour);
    assert forall|at: int| 0 <= at < place implies bare[at] != '点' && bare[at] != '时' && exact[at]
        != '点' && exact[at] != '时' by {
        assert(numeric_feature(hour[at]));
    }
    lemma_hour_mark(bare, 0, place);
    lemma_hour_mark(exact, 0, place);
    assert(bare.take(place) =~= hour);
    assert(exact.take(place) =~= hour);
    assert(exact.skip(place + 1) =~= "整"@);
    law_cardinals_read_as_their_value(hour);
    let rendering = cardinal_text(hour);
    assert(rendering.push(mark).drop_last() =~= rendering);
}

}
