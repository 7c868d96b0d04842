//! English number words.

use vstd::prelude::*;

use crate::numeric;
use crate::types;

verus! {

/// The value of a cardinal word below one hundred.
pub open spec fn cardinal_word(word: Seq<char>) -> Option<int> {
    if word == "zero"@ {
        Some(0)
    } else if word == "oh"@ {
        Some(0)
    } else if word == "one"@ {
        Some(1)
    } else if word == "two"@ {
        Some(2)
    } else if word == "three"@ {
        Some(3)
    } else if word == "four"@ {
        Some(4)
    } else if word == "five"@ {
        Some(5)
    } else if word == "six"@ {
        Some(6)
    } else if word == "seven"@ {
        Some(7)
    } else if word == "eight"@ {
        Some(8)
    } else if word == "nine"@ {
        Some(9)
    } else if word == "ten"@ {
        Some(10)
    } else if word == "eleven"@ {
        Some(11)
    } else if word == "twelve"@ {
        Some(12)
    } else if word == "thirteen"@ {
        Some(13)
    } else if word == "fourteen"@ {
        Some(14)
    } else if word == "fifteen"@ {
        Some(15)
    } else if word == "sixteen"@ {
        Some(16)
    } else if word == "seventeen"@ {
        Some(17)
    } else if word == "eighteen"@ {
        Some(18)
    } else if word == "nineteen"@ {
        Some(19)
    } else if word == "twenty"@ {
        Some(20)
    } else if word == "thirty"@ {
        Some(30)
    } else if word == "forty"@ {
        Some(40)
    } else if word == "fifty"@ {
        Some(50)
    } else if word == "sixty"@ {
        Some(60)
    } else if word == "seventy"@ {
        Some(70)
    } else if word == "eighty"@ {
        Some(80)
    } else if word == "ninety"@ {
        Some(90)
    } else {
        None
    }
}

/// The value of an ordinal word.
pub open spec fn ordinal_word(word: Seq<char>) -> Option<int> {
    if word == "first"@ {
        Some(1)
    } else if word == "second"@ {
        Some(2)
    } else if word == "third"@ {
        Some(3)
    } else if word == "fourth"@ {
        Some(4)
    } else if word == "fifth"@ {
        Some(5)
    } else if word == "sixth"@ {
        Some(6)
    } else if word == "seventh"@ {
        Some(7)
    } else if word == "eighth"@ {
        Some(8)
    } else if word == "ninth"@ {
        Some(9)
    } else if word == "tenth"@ {
        Some(10)
    } else if word == "eleventh"@ {
        Some(11)
    } else if word == "twelfth"@ {
        Some(12)
    } else if word == "thirteenth"@ {
        Some(13)
    } else if word == "fourteenth"@ {
        Some(14)
    } else if word == "fifteenth"@ {
        Some(15)
    } else if word == "sixteenth"@ {
        Some(16)
    } else if word == "seventeenth"@ {
        Some(17)
    } else if word == "eighteenth"@ {
        Some(18)
    } else if word == "nineteenth"@ {
        Some(19)
    } else if word == "twentieth"@ {
        Some(20)
    } else if word == "thirtieth"@ {
        Some(30)
    } else if word == "fortieth"@ {
        Some(40)
    } else if word == "fiftieth"@ {
        Some(50)
    } else if word == "sixtieth"@ {
        Some(60)
    } else if word == "seventieth"@ {
        Some(70)
    } else if word == "eightieth"@ {
        Some(80)
    } else if word == "ninetieth"@ {
        Some(90)
    } else if word == "hundredth"@ {
        Some(100)
    } else if word == "thousandth"@ {
        Some(1_000)
    } else if word == "millionth"@ {
        Some(1_000_000)
    } else {
        None
    }
}

/// The digit that a word names.
pub open spec fn digit_word(word: Seq<char>) -> Option<char> {
    if word == "zero"@ {
        Some('0')
    } else if word == "oh"@ {
        Some('0')
    } else if word == "one"@ {
        Some('1')
    } else if word == "two"@ {
        Some('2')
    } else if word == "three"@ {
        Some('3')
    } else if word == "four"@ {
        Some('4')
    } else if word == "five"@ {
        Some('5')
    } else if word == "six"@ {
        Some('6')
    } else if word == "seven"@ {
        Some('7')
    } else if word == "eight"@ {
        Some('8')
    } else if word == "nine"@ {
        Some('9')
    } else {
        None
    }
}

/// The denominator that a fraction word names.
pub open spec fn fraction_word(word: Seq<char>) -> Option<int> {
    if word == "half"@ {
        Some(2)
    } else if word == "third"@ {
        Some(3)
    } else if word == "quarter"@ {
        Some(4)
    } else {
        None
    }
}

/// The name of a month.
pub open spec fn month_word(word: Seq<char>) -> bool {
    ||| word == "january"@
    ||| word == "february"@
    ||| word == "march"@
    ||| word == "april"@
    ||| word == "may"@
    ||| word == "june"@
    ||| word == "july"@
    ||| word == "august"@
    ||| word == "september"@
    ||| word == "october"@
    ||| word == "november"@
    ||| word == "december"@
}

pub fn english_cardinal_value(word: &str) -> (value: Option<i64>)
    ensures
        numeric::as_int(value) == cardinal_word(word@),
{
    if word.eq("zero") {
        Some(0)
    } else if word.eq("oh") {
        Some(0)
    } else if word.eq("one") {
        Some(1)
    } else if word.eq("two") {
        Some(2)
    } else if word.eq("three") {
        Some(3)
    } else if word.eq("four") {
        Some(4)
    } else if word.eq("five") {
        Some(5)
    } else if word.eq("six") {
        Some(6)
    } else if word.eq("seven") {
        Some(7)
    } else if word.eq("eight") {
        Some(8)
    } else if word.eq("nine") {
        Some(9)
    } else if word.eq("ten") {
        Some(10)
    } else if word.eq("eleven") {
        Some(11)
    } else if word.eq("twelve") {
        Some(12)
    } else if word.eq("thirteen") {
        Some(13)
    } else if word.eq("fourteen") {
        Some(14)
    } else if word.eq("fifteen") {
        Some(15)
    } else if word.eq("sixteen") {
        Some(16)
    } else if word.eq("seventeen") {
        Some(17)
    } else if word.eq("eighteen") {
        Some(18)
    } else if word.eq("nineteen") {
        Some(19)
    } else if word.eq("twenty") {
        Some(20)
    } else if word.eq("thirty") {
        Some(30)
    } else if word.eq("forty") {
        Some(40)
    } else if word.eq("fifty") {
        Some(50)
    } else if word.eq("sixty") {
        Some(60)
    } else if word.eq("seventy") {
        Some(70)
    } else if word.eq("eighty") {
        Some(80)
    } else if word.eq("ninety") {
        Some(90)
    } else {
        None
    }
}

pub fn ordinal_value(word: &str) -> (value: Option<i64>)
    ensures
        numeric::as_int(value) == ordinal_word(word@),
{
    if word.eq("first") {
        Some(1)
    } else if word.eq("second") {
        Some(2)
    } else if word.eq("third") {
        Some(3)
    } else if word.eq("fourth") {
        Some(4)
    } else if word.eq("fifth") {
        Some(5)
    } else if word.eq("sixth") {
        Some(6)
    } else if word.eq("seventh") {
        Some(7)
    } else if word.eq("eighth") {
        Some(8)
    } else if word.eq("ninth") {
        Some(9)
    } else if word.eq("tenth") {
        Some(10)
    } else if word.eq("eleventh") {
        Some(11)
    } else if word.eq("twelfth") {
        Some(12)
    } else if word.eq("thirteenth") {
        Some(13)
    } else if word.eq("fourteenth") {
        Some(14)
    } else if word.eq("fifteenth") {
        Some(15)
    } else if word.eq("sixteenth") {
        Some(16)
    } else if word.eq("seventeenth") {
        Some(17)
    } else if word.eq("eighteenth") {
        Some(18)
    } else if word.eq("nineteenth") {
        Some(19)
    } else if word.eq("twentieth") {
        Some(20)
    } else if word.eq("thirtieth") {
        Some(30)
    } else if word.eq("fortieth") {
        Some(40)
    } else if word.eq("fiftieth") {
        Some(50)
    } else if word.eq("sixtieth") {
        Some(60)
    } else if word.eq("seventieth") {
        Some(70)
    } else if word.eq("eightieth") {
        Some(80)
    } else if word.eq("ninetieth") {
        Some(90)
    } else if word.eq("hundredth") {
        Some(100)
    } else if word.eq("thousandth") {
        Some(1_000)
    } else if word.eq("millionth") {
        Some(1_000_000)
    } else {
        None
    }
}

pub fn english_digit(word: &str) -> (value: Option<char>)
    ensures
        value == digit_word(word@),
{
    if word.eq("zero") {
        Some('0')
    } else if word.eq("oh") {
        Some('0')
    } else if word.eq("one") {
        Some('1')
    } else if word.eq("two") {
        Some('2')
    } else if word.eq("three") {
        Some('3')
    } else if word.eq("four") {
        Some('4')
    } else if word.eq("five") {
        Some('5')
    } else if word.eq("six") {
        Some('6')
    } else if word.eq("seven") {
        Some('7')
    } else if word.eq("eight") {
        Some('8')
    } else if word.eq("nine") {
        Some('9')
    } else {
        None
    }
}

pub fn fraction_denominator(word: &str) -> (value: Option<i64>)
    ensures
        numeric::as_int(value) == fraction_word(word@),
{
    if word.eq("half") {
        Some(2)
    } else if word.eq("third") {
        Some(3)
    } else if word.eq("quarter") {
        Some(4)
    } else {
        None
    }
}

pub fn is_english_month(word: &str) -> (result: bool)
    ensures
        result == month_word(word@),
{
    word.eq("january") || word.eq("february") || word.eq("march") || word.eq("april") || word.eq("may") || word.eq("june") || word.eq("july") || word.eq("august") || word.eq("september") || word.eq("october") || word.eq("november") || word.eq("december")
}

pub fn is_ordinal_word(word: &str) -> (result: bool)
    ensures
        result == (ordinal_word(word@) is Some),
{
    ordinal_value(word).is_some()
}

/// The ending of an ordinal written in digits.
pub open spec fn ordinal_ending(value: int) -> Seq<char> {
    if 10 <= value % 100 <= 20 {
        "th"@
    } else if value % 10 == 1 {
        "st"@
    } else if value % 10 == 2 {
        "nd"@
    } else if value % 10 == 3 {
        "rd"@
    } else {
        "th"@
    }
}

pub fn ordinal_suffix(value: i64) -> (suffix: &'static str)
    requires
        value >= 0,
    ensures
        suffix@ == ordinal_ending(value as int),
{
    if 10 <= value % 100 && value % 100 <= 20 {
        "th"
    } else {
        match value % 10 {
            1 => "st",
            2 => "nd",
            3 => "rd",
            _ => "th",
        }
    }
}

/// A cardinal read from the left: finished thousands and millions, the part below them, and
/// whether any number word was read.
pub struct CardinalState {
    pub total: nat,
    pub current: nat,
    pub consumed: bool,
}

/// `value`, but at least one.
pub open spec fn at_least_one(value: nat) -> nat {
    if value < 1 {
        1
    } else {
        value
    }
}

/// The state after one more word; `None` where it is no part of a cardinal.
pub open spec fn cardinal_step(state: CardinalState, word: Seq<char>) -> Option<CardinalState> {
    if word == "and"@ {
        Some(state)
    } else if cardinal_word(word) is Some {
        Some(
            CardinalState {
                current: (state.current + cardinal_word(word)->0) as nat,
                consumed: true,
                ..state
            },
        )
    } else if word == "hundred"@ {
        Some(
            CardinalState { current: at_least_one(state.current) * 100, consumed: true, ..state },
        )
    } else if word == "thousand"@ {
        Some(
            CardinalState {
                total: state.total + at_least_one(state.current) * 1_000,
                current: 0,
                consumed: true,
            },
        )
    } else if word == "million"@ {
        Some(
            CardinalState {
                total: state.total + at_least_one(state.current) * 1_000_000,
                current: 0,
                consumed: true,
            },
        )
    } else {
        None
    }
}

/// The state after the first `count` words.
pub open spec fn cardinal_state(words: Seq<Seq<char>>, count: int) -> Option<CardinalState>
    decreases count,
{
    if count <= 0 {
        Some(CardinalState { total: 0, current: 0, consumed: false })
    } else {
        match cardinal_state(words, count - 1) {
            Some(state) => cardinal_step(state, words[count - 1]),
            None => None,
        }
    }
}

/// A value that fits a 64-bit integer.
pub open spec fn fitting(value: int) -> Option<int> {
    if value <= i64::MAX {
        Some(value)
    } else {
        None
    }
}

/// The number that cardinal words name, where it fits a 64-bit integer.
pub open spec fn cardinal_number(words: Seq<Seq<char>>) -> Option<int> {
    match cardinal_state(words, words.len() as int) {
        Some(state) => if state.consumed {
            fitting((state.total + state.current) as int)
        } else {
            None
        },
        None => None,
    }
}

/// The number that words name as a year: a cardinal, or a century and what is beyond it.
pub open spec fn year_number(words: Seq<Seq<char>>) -> Option<int> {
    if cardinal_number(words) is Some {
        cardinal_number(words)
    } else if words.len() < 2 {
        None
    } else {
        match (cardinal_number(words.take(1)), cardinal_number(words.skip(1))) {
            (Some(century), Some(remainder)) => if 1 <= century <= 99 {
                fitting(century * 100 + remainder)
            } else {
                None
            },
            _ => None,
        }
    }
}

/// A word for a power of a thousand, or a hundred, as an ordinal.
pub open spec fn scaling_ordinal(word: Seq<char>) -> bool {
    word == "hundredth"@ || word == "thousandth"@ || word == "millionth"@
}

/// The number that words name as an ordinal.
pub open spec fn ordinal_number(words: Seq<Seq<char>>) -> Option<int> {
    if words.len() == 0 || ordinal_word(words.last()) is None {
        None
    } else {
        let ordinal = ordinal_word(words.last())->0;
        if words.len() == 1 {
            Some(ordinal)
        } else {
            match cardinal_number(words.drop_last()) {
                Some(value) => if scaling_ordinal(words.last()) {
                    fitting(value * ordinal)
                } else {
                    fitting(value + ordinal)
                },
                None => None,
            }
        }
    }
}

pub proof fn lemma_cardinal_grows(words: Seq<Seq<char>>, count: int, length: int)
    requires
        0 <= count <= length,
    ensures
        cardinal_state(words, length) is Some ==> cardinal_state(words, count) is Some && ({
            let early = cardinal_state(words, count)->0;
            let late = cardinal_state(words, length)->0;
            early.total + early.current <= late.total + late.current
        }),
    decreases length - count,
{
    if count < length {
        lemma_cardinal_grows(words, count, length - 1);
    }
}

/// Cardinals and ordinals are never negative.
pub proof fn lemma_numbers_are_natural(words: Seq<Seq<char>>)
    ensures
        cardinal_number(words) matches Some(value) ==> 0 <= value <= i64::MAX,
        ordinal_number(words) matches Some(value) ==> 0 <= value <= i64::MAX,
        year_number(words) matches Some(value) ==> 0 <= value <= i64::MAX,
{
    if words.len() > 1 {
        if let Some(value) = cardinal_number(words.drop_last()) {
            if ordinal_word(words.last()) is Some && scaling_ordinal(words.last()) {
                let ordinal = ordinal_word(words.last())->0;
                assert(value * ordinal >= 0) by (nonlinear_arith)
                    requires
                        value >= 0,
                        ordinal > 0,
                ;
            }
        }
    }
}

/// A cardinal being read from the left, in machine integers.
struct CardinalReader {
    total: i64,
    current: i64,
    consumed: bool,
}

impl CardinalReader {
    spec fn state(self) -> CardinalState {
        CardinalState {
            total: self.total as nat,
            current: self.current as nat,
            consumed: self.consumed,
        }
    }

    spec fn valid(self) -> bool {
        self.total >= 0 && self.current >= 0
    }

    /// Multiplies the current part into the total.
    fn close(&self, scale: i64) -> (next: Option<Self>)
        requires
            self.valid(),
            scale == 1_000 || scale == 1_000_000,
        ensures
            match next {
                Some(next) => next.valid() && next.state() == (CardinalState {
                    total: self.state().total + at_least_one(self.state().current) * scale as nat,
                    current: 0,
                    consumed: true,
                }),
                None => self.total + at_least_one(self.state().current) * scale as nat > i64::MAX,
            },
    {
        let current: i64 = if self.current < 1 {
            1
        } else {
            self.current
        };
        match current.checked_mul(scale) {
            Some(scaled) => match self.total.checked_add(scaled) {
                Some(total) => Some(CardinalReader { total, current: 0, consumed: true }),
                None => None,
            },
            None => None,
        }
    }

    /// Takes one more word.
    fn step(&self, word: &str) -> (next: Option<Self>)
        requires
            self.valid(),
        ensures
            match cardinal_step(self.state(), word@) {
                Some(state) => match next {
                    Some(next) => next.valid() && next.state() == state,
                    None => state.total + state.current > i64::MAX,
                },
                None => next is None,
            },
    {
        if word.eq("and") {
            Some(
                CardinalReader {
                    total: self.total,
                    current: self.current,
                    consumed: self.consumed,
                },
            )
        } else if let Some(value) = english_cardinal_value(word) {
            match self.current.checked_add(value) {
                Some(current) => Some(
                    CardinalReader { total: self.total, current, consumed: true },
                ),
                None => None,
            }
        } else if word.eq("hundred") {
            let current: i64 = if self.current < 1 {
                1
            } else {
                self.current
            };
            match current.checked_mul(100) {
                Some(current) => Some(
                    CardinalReader { total: self.total, current, consumed: true },
                ),
                None => None,
            }
        } else if word.eq("thousand") {
            self.close(1_000)
        } else if word.eq("million") {
            self.close(1_000_000)
        } else {
            None
        }
    }
}

/// Reads `words[from..to]` as a cardinal.
pub fn cardinal_between(words: &[String], from: usize, to: usize) -> (value: Option<i64>)
    requires
        from <= to <= words@.len(),
    ensures
        numeric::as_int(value) == cardinal_number(
            types::text_views(words@).subrange(from as int, to as int),
        ),
        value is Some ==> value->0 >= 0,
{
    let ghost views = types::text_views(words@).subrange(from as int, to as int);
    let mut reader = CardinalReader { total: 0, current: 0, consumed: false };
    for index in from..to
        invariant
            from <= to <= words@.len(),
            views == types::text_views(words@).subrange(from as int, to as int),
            reader.valid(),
            cardinal_state(views, index - from) == Some(reader.state()),
    {
        proof {
            lemma_cardinal_grows(views, index - from + 1, views.len() as int);
            assert(views[index - from] == words@[index as int]@);
        }
        match reader.step(words[index].as_str()) {
            Some(next) => {
                reader = next;
            },
            None => {
                return None;
            },
        }
    }
    if reader.consumed {
        reader.total.checked_add(reader.current)
    } else {
        None
    }
}

/// Reads `words[from..to]` as a year.
pub fn year_between(words: &[String], from: usize, to: usize) -> (value: Option<i64>)
    requires
        from <= to <= words@.len(),
    ensures
        numeric::as_int(value) == year_number(
            types::text_views(words@).subrange(from as int, to as int),
        ),
        value is Some ==> value->0 >= 0,
{
    let ghost views = types::text_views(words@).subrange(from as int, to as int);
    let whole: Option<i64> = cardinal_between(words, from, to);
    if whole.is_some() || to - from < 2 {
        return whole;
    }
    assert(views.take(1) =~= types::text_views(words@).subrange(from as int, from + 1));
    assert(views.skip(1) =~= types::text_views(words@).subrange(from + 1, to as int));
    match (cardinal_between(words, from, from + 1), cardinal_between(words, from + 1, to)) {
        (Some(century), Some(remainder)) => if 1 <= century && century <= 99 {
            (century * 100).checked_add(remainder)
        } else {
            None
        },
        _ => None,
    }
}

/// Reads `words[from..to]` as an ordinal.
pub fn ordinal_between(words: &[String], from: usize, to: usize) -> (value: Option<i64>)
    requires
        from <= to <= words@.len(),
    ensures
        numeric::as_int(value) == ordinal_number(
            types::text_views(words@).subrange(from as int, to as int),
        ),
        value is Some ==> value->0 >= 0,
{
    let ghost views = types::text_views(words@).subrange(from as int, to as int);
    proof {
        lemma_numbers_are_natural(views);
    }
    if from == to {
        return None;
    }
    let last: &str = words[to - 1].as_str();
    assert(views.last() == last@);
    assert(views.drop_last() =~= types::text_views(words@).subrange(from as int, to - 1));
    let ordinal: i64 = match ordinal_value(last) {
        Some(ordinal) => ordinal,
        None => {
            return None;
        },
    };
    if to - from == 1 {
        return Some(ordinal);
    }
    match cardinal_between(words, from, to - 1) {
        Some(value) => if last.eq("hundredth") || last.eq("thousandth") || last.eq("millionth") {
            value.checked_mul(ordinal)
        } else {
            value.checked_add(ordinal)
        },
        None => None,
    }
}

/// Reads words as a cardinal.
pub fn parse_english_cardinal(words: &[String]) -> (value: Option<i64>)
    ensures
        numeric::as_int(value) == cardinal_number(types::text_views(words@)),
{
    assert(types::text_views(words@).subrange(0, words@.len() as int) =~= types::text_views(
        words@,
    ));
    cardinal_between(words, 0, words.len())
}

/// Reads words as a year.
pub fn parse_spoken_year(words: &[String]) -> (value: Option<i64>)
    ensures
        numeric::as_int(value) == year_number(types::text_views(words@)),
{
    assert(types::text_views(words@).subrange(0, words@.len() as int) =~= types::text_views(
        words@,
    ));
    year_between(words, 0, words.len())
}

/// Reads words as an ordinal.
pub fn parse_english_ordinal(words: &[String]) -> (value: Option<i64>)
    ensures
        numeric::as_int(value) == ordinal_number(types::text_views(words@)),
{
    assert(types::text_views(words@).subrange(0, words@.len() as int) =~= types::text_views(
        words@,
    ));
    ordinal_between(words, 0, words.len())
}

/// The word for a number below twenty or for a multiple of ten.
pub open spec fn number_word(value: int) -> Seq<char> {
    if value == 0 {
        "zero"@
    } else if value == 1 {
        "one"@
    } else if value == 2 {
        "two"@
    } else if value == 3 {
        "three"@
    } else if value == 4 {
        "four"@
    } else if value == 5 {
        "five"@
    } else if value == 6 {
        "six"@
    } else if value == 7 {
        "seven"@
    } else if value == 8 {
        "eight"@
    } else if value == 9 {
        "nine"@
    } else if value == 10 {
        "ten"@
    } else if value == 11 {
        "eleven"@
    } else if value == 12 {
        "twelve"@
    } else if value == 13 {
        "thirteen"@
    } else if value == 14 {
        "fourteen"@
    } else if value == 15 {
        "fifteen"@
    } else if value == 16 {
        "sixteen"@
    } else if value == 17 {
        "seventeen"@
    } else if value == 18 {
        "eighteen"@
    } else if value == 19 {
        "nineteen"@
    } else if value == 20 {
        "twenty"@
    } else if value == 30 {
        "thirty"@
    } else if value == 40 {
        "forty"@
    } else if value == 50 {
        "fifty"@
    } else if value == 60 {
        "sixty"@
    } else if value == 70 {
        "seventy"@
    } else if value == 80 {
        "eighty"@
    } else {
        "ninety"@
    }
}

/// A number that has a word of its own.
pub open spec fn has_word(value: int) -> bool {
    0 <= value < 20 || (20 <= value < 100 && value % 10 == 0)
}

/// Each number word names its number, and no word that scales numbers or joins them does.
proof fn lemma_number_words(value: int)
    requires
        has_word(value),
    ensures
        cardinal_word(number_word(value)) == Some(value),
        number_word(value) != "and"@,
        cardinal_word("hundred"@) is None,
        cardinal_word("thousand"@) is None,
        cardinal_word("million"@) is None,
        "hundred"@ != "and"@,
        "thousand"@ != "and"@ && "thousand"@ != "hundred"@,
        "million"@ != "and"@ && "million"@ != "hundred"@ && "million"@ != "thousand"@,
{
    reveal_strlit("zero");
    reveal_strlit("oh");
    reveal_strlit("one");
    reveal_strlit("two");
    reveal_strlit("three");
    reveal_strlit("four");
    reveal_strlit("five");
    reveal_strlit("six");
    reveal_strlit("seven");
    reveal_strlit("eight");
    reveal_strlit("nine");
    reveal_strlit("ten");
    reveal_strlit("eleven");
    reveal_strlit("twelve");
    reveal_strlit("thirteen");
    reveal_strlit("fourteen");
    reveal_strlit("fifteen");
    reveal_strlit("sixteen");
    reveal_strlit("seventeen");
    reveal_strlit("eighteen");
    reveal_strlit("nineteen");
    reveal_strlit("twenty");
    reveal_strlit("thirty");
    reveal_strlit("forty");
    reveal_strlit("fifty");
    reveal_strlit("sixty");
    reveal_strlit("seventy");
    reveal_strlit("eighty");
    reveal_strlit("ninety");
    reveal_strlit("and");
    reveal_strlit("hundred");
    reveal_strlit("thousand");
    reveal_strlit("million");
    assert("zero"@.len() == 4 && "zero"@[0] == 'z' && "zero"@[1] == 'e' && "zero"@[3] == 'o');
    assert("oh"@.len() == 2 && "oh"@[0] == 'o' && "oh"@[1] == 'h');
    assert("one"@.len() == 3 && "one"@[0] == 'o' && "one"@[1] == 'n');
    assert("two"@.len() == 3 && "two"@[0] == 't' && "two"@[1] == 'w');
    assert("three"@.len() == 5 && "three"@[0] == 't' && "three"@[1] == 'h' && "three"@[3] == 'e');
    assert("four"@.len() == 4 && "four"@[0] == 'f' && "four"@[1] == 'o' && "four"@[3] == 'r');
    assert("five"@.len() == 4 && "five"@[0] == 'f' && "five"@[1] == 'i' && "five"@[3] == 'e');
    assert("six"@.len() == 3 && "six"@[0] == 's' && "six"@[1] == 'i');
    assert("seven"@.len() == 5 && "seven"@[0] == 's' && "seven"@[1] == 'e' && "seven"@[3] == 'e');
    assert("eight"@.len() == 5 && "eight"@[0] == 'e' && "eight"@[1] == 'i' && "eight"@[3] == 'h');
    assert("nine"@.len() == 4 && "nine"@[0] == 'n' && "nine"@[1] == 'i' && "nine"@[3] == 'e');
    assert("ten"@.len() == 3 && "ten"@[0] == 't' && "ten"@[1] == 'e');
    assert("eleven"@.len() == 6 && "eleven"@[0] == 'e' && "eleven"@[1] == 'l' && "eleven"@[3] == 'v');
    assert("twelve"@.len() == 6 && "twelve"@[0] == 't' && "twelve"@[1] == 'w' && "twelve"@[3] == 'l');
    assert("thirteen"@.len() == 8 && "thirteen"@[0] == 't' && "thirteen"@[1] == 'h' && "thirteen"@[3] == 'r');
    assert("fourteen"@.len() == 8 && "fourteen"@[0] == 'f' && "fourteen"@[1] == 'o' && "fourteen"@[3] == 'r');
    assert("fifteen"@.len() == 7 && "fifteen"@[0] == 'f' && "fifteen"@[1] == 'i' && "fifteen"@[3] == 't');
    assert("sixteen"@.len() == 7 && "sixteen"@[0] == 's' && "sixteen"@[1] == 'i' && "sixteen"@[3] == 't');
    assert("seventeen"@.len() == 9 && "seventeen"@[0] == 's' && "seventeen"@[1] == 'e' && "seventeen"@[3] == 'e');
    assert("eighteen"@.len() == 8 && "eighteen"@[0] == 'e' && "eighteen"@[1] == 'i' && "eighteen"@[3] == 'h');
    assert("nineteen"@.len() == 8 && "nineteen"@[0] == 'n' && "nineteen"@[1] == 'i' && "nineteen"@[3] == 'e');
    assert("twenty"@.len() == 6 && "twenty"@[0] == 't' && "twenty"@[1] == 'w' && "twenty"@[3] == 'n');
    assert("thirty"@.len() == 6 && "thirty"@[0] == 't' && "thirty"@[1] == 'h' && "thirty"@[3] == 'r');
    assert("forty"@.len() == 5 && "forty"@[0] == 'f' && "forty"@[1] == 'o' && "forty"@[3] == 't');
    assert("fifty"@.len() == 5 && "fifty"@[0] == 'f' && "fifty"@[1] == 'i' && "fifty"@[3] == 't');
    assert("sixty"@.len() == 5 && "sixty"@[0] == 's' && "sixty"@[1] == 'i' && "sixty"@[3] == 't');
    assert("seventy"@.len() == 7 && "seventy"@[0] == 's' && "seventy"@[1] == 'e' && "seventy"@[3] == 'e');
    assert("eighty"@.len() == 6 && "eighty"@[0] == 'e' && "eighty"@[1] == 'i' && "eighty"@[3] == 'h');
    assert("ninety"@.len() == 6 && "ninety"@[0] == 'n' && "ninety"@[1] == 'i' && "ninety"@[3] == 'e');
    assert("and"@.len() == 3 && "and"@[0] == 'a' && "and"@[1] == 'n');
    assert("hundred"@.len() == 7 && "hundred"@[0] == 'h' && "hundred"@[1] == 'u' && "hundred"@[3] == 'd');
    assert("thousand"@.len() == 8 && "thousand"@[0] == 't' && "thousand"@[1] == 'h' && "thousand"@[3] == 'u');
    assert("million"@.len() == 7 && "million"@[0] == 'm' && "million"@[1] == 'i' && "million"@[3] == 'l');
    assert(value == 20 || value == 30 || value == 40 || value == 50 || value == 60 || value == 70
        || value == 80 || value == 90 || value < 20);
}

/// The words of a number below one hundred.
pub open spec fn spoken_below_hundred(value: int) -> Seq<Seq<char>> {
    if value <= 0 {
        Seq::empty()
    } else if has_word(value) {
        seq![number_word(value)]
    } else {
        seq![number_word(value - value % 10), number_word(value % 10)]
    }
}

/// The words of a number below one thousand.
pub open spec fn spoken_below_thousand(value: int) -> Seq<Seq<char>> {
    if value < 100 {
        spoken_below_hundred(value)
    } else {
        seq![number_word(value / 100), "hundred"@] + spoken_below_hundred(value % 100)
    }
}

/// The words for so many of a unit.
pub open spec fn spoken_scaled(value: int, unit: Seq<char>) -> Seq<Seq<char>> {
    if value <= 0 {
        Seq::empty()
    } else {
        spoken_below_thousand(value).push(unit)
    }
}

/// The words of a number below one thousand million.
pub open spec fn spoken(value: int) -> Seq<Seq<char>> {
    if value == 0 {
        seq![number_word(0)]
    } else {
        spoken_scaled(value / 1_000_000, "million"@) + spoken_scaled(
            value / 1_000 % 1_000,
            "thousand"@,
        ) + spoken_below_thousand(value % 1_000)
    }
}

proof fn lemma_state_prefix(words: Seq<Seq<char>>, other: Seq<Seq<char>>, count: int)
    requires
        0 <= count <= words.len(),
        count <= other.len(),
        forall|index: int| 0 <= index < count ==> words[index] == other[index],
    ensures
        cardinal_state(words, count) == cardinal_state(other, count),
    decreases count,
{
    if count > 0 {
        lemma_state_prefix(words, other, count - 1);
    }
}

/// The state after one more word.
proof fn lemma_state_push(words: Seq<Seq<char>>, word: Seq<char>)
    requires
        cardinal_state(words, words.len() as int) is Some,
    ensures
        cardinal_state(words.push(word), words.len() as int + 1) == cardinal_step(
            cardinal_state(words, words.len() as int)->0,
            word,
        ),
{
    lemma_state_prefix(words, words.push(word), words.len() as int);
}

proof fn lemma_spoken_below_hundred(before: Seq<Seq<char>>, state: CardinalState, value: int)
    requires
        cardinal_state(before, before.len() as int) == Some(state),
        0 <= value < 100,
    ensures
        ({
            let words = before + spoken_below_hundred(value);
            cardinal_state(words, words.len() as int) == Some(
                CardinalState {
                    total: state.total,
                    current: (state.current + value) as nat,
                    consumed: state.consumed || value > 0,
                },
            )
        }),
{
    let part = spoken_below_hundred(value);
    if value == 0 {
        assert(before + part =~= before);
    } else if has_word(value) {
        lemma_number_words(value);
        lemma_state_push(before, number_word(value));
        assert(before + part =~= before.push(number_word(value)));
    } else {
        let tens = value - value % 10;
        let ones = value % 10;
        lemma_number_words(tens);
        lemma_number_words(ones);
        let with_tens = before.push(number_word(tens));
        lemma_state_push(before, number_word(tens));
        lemma_state_push(with_tens, number_word(ones));
        assert(before + part =~= with_tens.push(number_word(ones)));
    }
}

proof fn lemma_spoken_below_thousand(before: Seq<Seq<char>>, state: CardinalState, value: int)
    requires
        cardinal_state(before, before.len() as int) == Some(state),
        state.current == 0,
        0 <= value < 1_000,
    ensures
        ({
            let words = before + spoken_below_thousand(value);
            cardinal_state(words, words.len() as int) == Some(
                CardinalState {
                    total: state.total,
                    current: value as nat,
                    consumed: state.consumed || value > 0,
                },
            )
        }),
{
    let part = spoken_below_thousand(value);
    if value < 100 {
        lemma_spoken_below_hundred(before, state, value);
    } else {
        let hundreds = value / 100;
        lemma_number_words(hundreds);
        let with_digit = before.push(number_word(hundreds));
        lemma_state_push(before, number_word(hundreds));
        lemma_state_push(with_digit, "hundred"@);
        let with_hundred = with_digit.push("hundred"@);
        let read = cardinal_state(with_hundred, with_hundred.len() as int)->0;
        lemma_spoken_below_hundred(with_hundred, read, value % 100);
        assert(before + part =~= with_hundred + spoken_below_hundred(value % 100));
    }
}

proof fn lemma_spoken_scaled(
    before: Seq<Seq<char>>,
    state: CardinalState,
    value: int,
    unit: Seq<char>,
    scale: int,
)
    requires
        cardinal_state(before, before.len() as int) == Some(state),
        state.current == 0,
        0 <= value < 1_000,
        unit == "thousand"@ && scale == 1_000 || unit == "million"@ && scale == 1_000_000,
    ensures
        ({
            let words = before + spoken_scaled(value, unit);
            cardinal_state(words, words.len() as int) == Some(
                CardinalState {
                    total: (state.total + value * scale) as nat,
                    current: 0,
                    consumed: state.consumed || value > 0,
                },
            )
        }),
{
    if value == 0 {
        assert(before + spoken_scaled(value, unit) =~= before);
    } else {
        lemma_spoken_below_thousand(before, state, value);
        lemma_number_words(1);
        let head = before + spoken_below_thousand(value);
        lemma_state_push(head, unit);
        assert(before + spoken_scaled(value, unit) =~= head.push(unit));
    }
}

/// Every number below one thousand million reads back from the words that it is spoken in.
pub proof fn law_spoken_numbers_read_back(value: int)
    requires
        0 <= value < 1_000_000_000,
    ensures
        cardinal_number(spoken(value)) == Some(value),
{
    let start = CardinalState { total: 0, current: 0, consumed: false };
    let nothing = Seq::<Seq<char>>::empty();
    assert(cardinal_state(nothing, nothing.len() as int) == Some(start));
    if value == 0 {
        lemma_number_words(0);
        lemma_state_push(nothing, number_word(0));
        assert(nothing.push(number_word(0)) =~= spoken(0));
    } else {
        let millions = value / 1_000_000;
        let thousands = value / 1_000 % 1_000;
        let rest = value % 1_000;
        assert(value == millions * 1_000_000 + thousands * 1_000 + rest);
        lemma_spoken_scaled(nothing, start, millions, "million"@, 1_000_000);
        let first = nothing + spoken_scaled(millions, "million"@);
        let first_state = cardinal_state(first, first.len() as int)->0;
        lemma_spoken_scaled(first, first_state, thousands, "thousand"@, 1_000);
        let second = first + spoken_scaled(thousands, "thousand"@);
        let second_state = cardinal_state(second, second.len() as int)->0;
        lemma_spoken_below_thousand(second, second_state, rest);
        assert(second + spoken_below_thousand(rest) =~= spoken(value));
    }
}

/// A word names a digit just if it names a number below ten, and it is the digit of that number.
pub proof fn law_digit_words_are_small_numbers(word: Seq<char>)
    ensures
        digit_word(word) is Some <==> cardinal_word(word) is Some && cardinal_word(word)->0 < 10,
        digit_word(word) is Some ==> digit_word(word)->0 as int == 48 + cardinal_word(word)->0,
{
    reveal_strlit("zero");
    reveal_strlit("oh");
    reveal_strlit("one");
    reveal_strlit("two");
    reveal_strlit("three");
    reveal_strlit("four");
    reveal_strlit("five");
    reveal_strlit("six");
    reveal_strlit("seven");
    reveal_strlit("eight");
    reveal_strlit("nine");
    reveal_strlit("ten");
    reveal_strlit("eleven");
    reveal_strlit("twelve");
    reveal_strlit("thirteen");
    reveal_strlit("fourteen");
    reveal_strlit("fifteen");
    reveal_strlit("sixteen");
    reveal_strlit("seventeen");
    reveal_strlit("eighteen");
    reveal_strlit("nineteen");
    reveal_strlit("twenty");
    reveal_strlit("thirty");
    reveal_strlit("forty");
    reveal_strlit("fifty");
    reveal_strlit("sixty");
    reveal_strlit("seventy");
    reveal_strlit("eighty");
    reveal_strlit("ninety");
    assert("zero"@.len() == 4 && "zero"@[0] == 'z' && "zero"@[1] == 'e' && "zero"@[3] == 'o');
    assert("oh"@.len() == 2 && "oh"@[0] == 'o' && "oh"@[1] == 'h');
    assert("one"@.len() == 3 && "one"@[0] == 'o' && "one"@[1] == 'n');
    assert("two"@.len() == 3 && "two"@[0] == 't' && "two"@[1] == 'w');
    assert("three"@.len() == 5 && "three"@[0] == 't' && "three"@[1] == 'h' && "three"@[3] == 'e');
    assert("four"@.len() == 4 && "four"@[0] == 'f' && "four"@[1] == 'o' && "four"@[3] == 'r');
    assert("five"@.len() == 4 && "five"@[0] == 'f' && "five"@[1] == 'i' && "five"@[3] == 'e');
    assert("six"@.len() == 3 && "six"@[0] == 's' && "six"@[1] == 'i');
    assert("seven"@.len() == 5 && "seven"@[0] == 's' && "seven"@[1] == 'e' && "seven"@[3] == 'e');
    assert("eight"@.len() == 5 && "eight"@[0] == 'e' && "eight"@[1] == 'i' && "eight"@[3] == 'h');
    assert("nine"@.len() == 4 && "nine"@[0] == 'n' && "nine"@[1] == 'i' && "nine"@[3] == 'e');
    assert("ten"@.len() == 3 && "ten"@[0] == 't' && "ten"@[1] == 'e');
    assert("eleven"@.len() == 6 && "eleven"@[0] == 'e' && "eleven"@[1] == 'l' && "eleven"@[3] == 'v');
    assert("twelve"@.len() == 6 && "twelve"@[0] == 't' && "twelve"@[1] == 'w' && "twelve"@[3] == 'l');
    assert("thirteen"@.len() == 8 && "thirteen"@[0] == 't' && "thirteen"@[1] == 'h' && "thirteen"@[3] == 'r');
    assert("fourteen"@.len() == 8 && "fourteen"@[0] == 'f' && "fourteen"@[1] == 'o' && "fourteen"@[3] == 'r');
    assert("fifteen"@.len() == 7 && "fifteen"@[0] == 'f' && "fifteen"@[1] == 'i' && "fifteen"@[3] == 't');
    assert("sixteen"@.len() == 7 && "sixteen"@[0] == 's' && "sixteen"@[1] == 'i' && "sixteen"@[3] == 't');
    assert("seventeen"@.len() == 9 && "seventeen"@[0] == 's' && "seventeen"@[1] == 'e' && "seventeen"@[3] == 'e');
    assert("eighteen"@.len() == 8 && "eighteen"@[0] == 'e' && "eighteen"@[1] == 'i' && "eighteen"@[3] == 'h');
    assert("nineteen"@.len() == 8 && "nineteen"@[0] == 'n' && "nineteen"@[1] == 'i' && "nineteen"@[3] == 'e');
    assert("twenty"@.len() == 6 && "twenty"@[0] == 't' && "twenty"@[1] == 'w' && "twenty"@[3] == 'n');
    assert("thirty"@.len() == 6 && "thirty"@[0] == 't' && "thirty"@[1] == 'h' && "thirty"@[3] == 'r');
    assert("forty"@.len() == 5 && "forty"@[0] == 'f' && "forty"@[1] == 'o' && "forty"@[3] == 't');
    assert("fifty"@.len() == 5 && "fifty"@[0] == 'f' && "fifty"@[1] == 'i' && "fifty"@[3] == 't');
    assert("sixty"@.len() == 5 && "sixty"@[0] == 's' && "sixty"@[1] == 'i' && "sixty"@[3] == 't');
    assert("seventy"@.len() == 7 && "seventy"@[0] == 's' && "seventy"@[1] == 'e' && "seventy"@[3] == 'e');
    assert("eighty"@.len() == 6 && "eighty"@[0] == 'e' && "eighty"@[1] == 'i' && "eighty"@[3] == 'h');
    assert("ninety"@.len() == 6 && "ninety"@[0] == 'n' && "ninety"@[1] == 'i' && "ninety"@[3] == 'e');
}

/// A year in two parts is so many hundreds and the rest.
pub proof fn law_years_are_hundreds_and_rest(century: Seq<char>, rest: Seq<Seq<char>>)
    requires
        cardinal_word(century) is Some,
        1 <= cardinal_word(century)->0,
        cardinal_number(rest) is Some,
        cardinal_number(rest)->0 < 100,
        cardinal_number(seq![century] + rest) is None,
    ensures
        year_number(seq![century] + rest) == Some(
            cardinal_word(century)->0 * 100 + cardinal_number(rest)->0,
        ),
{
    let words = seq![century] + rest;
    assert(words.skip(1) =~= rest);
    assert(words.take(1) =~= seq![century]);
    let first = words.take(1);
    lemma_joining_is_no_number();
    assert(century != "and"@);
    reveal_with_fuel(cardinal_state, 2);
    assert(cardinal_number(first) == cardinal_word(century));
    assert(words.len() >= 2);
}

/// The word that joins numbers names none.
proof fn lemma_joining_is_no_number()
    ensures
        cardinal_word("and"@) is None,
{
    reveal_strlit("zero");
    reveal_strlit("oh");
    reveal_strlit("one");
    reveal_strlit("two");
    reveal_strlit("three");
    reveal_strlit("four");
    reveal_strlit("five");
    reveal_strlit("six");
    reveal_strlit("seven");
    reveal_strlit("eight");
    reveal_strlit("nine");
    reveal_strlit("ten");
    reveal_strlit("eleven");
    reveal_strlit("twelve");
    reveal_strlit("thirteen");
    reveal_strlit("fourteen");
    reveal_strlit("fifteen");
    reveal_strlit("sixteen");
    reveal_strlit("seventeen");
    reveal_strlit("eighteen");
    reveal_strlit("nineteen");
    reveal_strlit("twenty");
    reveal_strlit("thirty");
    reveal_strlit("forty");
    reveal_strlit("fifty");
    reveal_strlit("sixty");
    reveal_strlit("seventy");
    reveal_strlit("eighty");
    reveal_strlit("ninety");
    reveal_strlit("and");
    assert("zero"@.len() == 4 && "zero"@[0] == 'z');
    assert("oh"@.len() == 2 && "oh"@[0] == 'o');
    assert("one"@.len() == 3 && "one"@[0] == 'o');
    assert("two"@.len() == 3 && "two"@[0] == 't');
    assert("three"@.len() == 5 && "three"@[0] == 't');
    assert("four"@.len() == 4 && "four"@[0] == 'f');
    assert("five"@.len() == 4 && "five"@[0] == 'f');
    assert("six"@.len() == 3 && "six"@[0] == 's');
    assert("seven"@.len() == 5 && "seven"@[0] == 's');
    assert("eight"@.len() == 5 && "eight"@[0] == 'e');
    assert("nine"@.len() == 4 && "nine"@[0] == 'n');
    assert("ten"@.len() == 3 && "ten"@[0] == 't');
    assert("eleven"@.len() == 6 && "eleven"@[0] == 'e');
    assert("twelve"@.len() == 6 && "twelve"@[0] == 't');
    assert("thirteen"@.len() == 8 && "thirteen"@[0] == 't');
    assert("fourteen"@.len() == 8 && "fourteen"@[0] == 'f');
    assert("fifteen"@.len() == 7 && "fifteen"@[0] == 'f');
    assert("sixteen"@.len() == 7 && "sixteen"@[0] == 's');
    assert("seventeen"@.len() == 9 && "seventeen"@[0] == 's');
    assert("eighteen"@.len() == 8 && "eighteen"@[0] == 'e');
    assert("nineteen"@.len() == 8 && "nineteen"@[0] == 'n');
    assert("twenty"@.len() == 6 && "twenty"@[0] == 't');
    assert("thirty"@.len() == 6 && "thirty"@[0] == 't');
    assert("forty"@.len() == 5 && "forty"@[0] == 'f');
    assert("fifty"@.len() == 5 && "fifty"@[0] == 'f');
    assert("sixty"@.len() == 5 && "sixty"@[0] == 's');
    assert("seventy"@.len() == 7 && "seventy"@[0] == 's');
    assert("eighty"@.len() == 6 && "eighty"@[0] == 'e');
    assert("ninety"@.len() == 6 && "ninety"@[0] == 'n');
    assert("and"@.len() == 3 && "and"@[0] == 'a');
}

/// No word of a number is of another kind.
pub proof fn lemma_words_of_numbers(words: Seq<Seq<char>>, index: int)
    requires
        0 <= index < words.len(),
        cardinal_number(words) is Some,
    ensures
        !month_word(words[index]),
        ordinal_word(words[index]) is None,
        fraction_word(words[index]) is None,
        words[index] != "call"@,
        words[index] != "the"@,
        words[index] != "point"@,
        words[index] != "percent"@,
        words[index] != "m"@,
{
    lemma_cardinal_grows(words, index + 1, words.len() as int);
    let word = words[index];
    assert(cardinal_step(cardinal_state(words, index)->0, word) is Some);
    lemma_number_words_apart(word);
}

/// A word of a number.
pub open spec fn number_part(word: Seq<char>) -> bool {
    cardinal_word(word) is Some || word == "and"@ || word == "hundred"@ || word == "thousand"@
        || word == "million"@
}

#[verifier::rlimit(60)]
pub proof fn lemma_number_words_apart(word: Seq<char>)
    requires
        number_part(word),
    ensures
        !month_word(word),
        ordinal_word(word) is None,
        fraction_word(word) is None,
        word != "call"@,
        word != "the"@,
        word != "point"@,
        word != "percent"@,
        word != "m"@,
{
    reveal_strlit("zero");
    reveal_strlit("oh");
    reveal_strlit("one");
    reveal_strlit("two");
    reveal_strlit("three");
    reveal_strlit("four");
    reveal_strlit("five");
    reveal_strlit("six");
    reveal_strlit("seven");
    reveal_strlit("eight");
    reveal_strlit("nine");
    reveal_strlit("ten");
    reveal_strlit("eleven");
    reveal_strlit("twelve");
    reveal_strlit("thirteen");
    reveal_strlit("fourteen");
    reveal_strlit("fifteen");
    reveal_strlit("sixteen");
    reveal_strlit("seventeen");
    reveal_strlit("eighteen");
    reveal_strlit("nineteen");
    reveal_strlit("twenty");
    reveal_strlit("thirty");
    reveal_strlit("forty");
    reveal_strlit("fifty");
    reveal_strlit("sixty");
    reveal_strlit("seventy");
    reveal_strlit("eighty");
    reveal_strlit("ninety");
    reveal_strlit("and");
    reveal_strlit("hundred");
    reveal_strlit("thousand");
    reveal_strlit("million");
    reveal_strlit("january");
    reveal_strlit("february");
    reveal_strlit("march");
    reveal_strlit("april");
    reveal_strlit("may");
    reveal_strlit("june");
    reveal_strlit("july");
    reveal_strlit("august");
    reveal_strlit("september");
    reveal_strlit("october");
    reveal_strlit("november");
    reveal_strlit("december");
    reveal_strlit("first");
    reveal_strlit("second");
    reveal_strlit("third");
    reveal_strlit("fourth");
    reveal_strlit("fifth");
    reveal_strlit("sixth");
    reveal_strlit("seventh");
    reveal_strlit("eighth");
    reveal_strlit("ninth");
    reveal_strlit("tenth");
    reveal_strlit("eleventh");
    reveal_strlit("twelfth");
    reveal_strlit("thirteenth");
    reveal_strlit("fourteenth");
    reveal_strlit("fifteenth");
    reveal_strlit("sixteenth");
    reveal_strlit("seventeenth");
    reveal_strlit("eighteenth");
    reveal_strlit("nineteenth");
    reveal_strlit("twentieth");
    reveal_strlit("thirtieth");
    reveal_strlit("fortieth");
    reveal_strlit("fiftieth");
    reveal_strlit("sixtieth");
    reveal_strlit("seventieth");
    reveal_strlit("eightieth");
    reveal_strlit("ninetieth");
    reveal_strlit("hundredth");
    reveal_strlit("thousandth");
    reveal_strlit("millionth");
    reveal_strlit("call");
    reveal_strlit("the");
    reveal_strlit("point");
    reveal_strlit("percent");
    reveal_strlit("m");
    reveal_strlit("half");
    reveal_strlit("quarter");
    assert("zero"@.len() == 4 && "zero"@[0] == 'z' && "zero"@[1] == 'e' && "zero"@[2] == 'r' && "zero"@[3] == 'o');
    assert("oh"@.len() == 2 && "oh"@[0] == 'o' && "oh"@[1] == 'h');
    assert("one"@.len() == 3 && "one"@[0] == 'o' && "one"@[1] == 'n' && "one"@[2] == 'e');
    assert("two"@.len() == 3 && "two"@[0] == 't' && "two"@[1] == 'w' && "two"@[2] == 'o');
    assert("three"@.len() == 5 && "three"@[0] == 't' && "three"@[1] == 'h' && "three"@[2] == 'r' && "three"@[3] == 'e');
    assert("four"@.len() == 4 && "four"@[0] == 'f' && "four"@[1] == 'o' && "four"@[2] == 'u' && "four"@[3] == 'r');
    assert("five"@.len() == 4 && "five"@[0] == 'f' && "five"@[1] == 'i' && "five"@[2] == 'v' && "five"@[3] == 'e');
    assert("six"@.len() == 3 && "six"@[0] == 's' && "six"@[1] == 'i' && "six"@[2] == 'x');
    assert("seven"@.len() == 5 && "seven"@[0] == 's' && "seven"@[1] == 'e' && "seven"@[2] == 'v' && "seven"@[3] == 'e');
    assert("eight"@.len() == 5 && "eight"@[0] == 'e' && "eight"@[1] == 'i' && "eight"@[2] == 'g' && "eight"@[3] == 'h');
    assert("nine"@.len() == 4 && "nine"@[0] == 'n' && "nine"@[1] == 'i' && "nine"@[2] == 'n' && "nine"@[3] == 'e');
    assert("ten"@.len() == 3 && "ten"@[0] == 't' && "ten"@[1] == 'e' && "ten"@[2] == 'n');
    assert("eleven"@.len() == 6 && "eleven"@[0] == 'e' && "eleven"@[1] == 'l' && "eleven"@[2] == 'e' && "eleven"@[3] == 'v');
    assert("twelve"@.len() == 6 && "twelve"@[0] == 't' && "twelve"@[1] == 'w' && "twelve"@[2] == 'e' && "twelve"@[3] == 'l');
    assert("thirteen"@.len() == 8 && "thirteen"@[0] == 't' && "thirteen"@[1] == 'h' && "thirteen"@[2] == 'i' && "thirteen"@[3] == 'r');
    assert("fourteen"@.len() == 8 && "fourteen"@[0] == 'f' && "fourteen"@[1] == 'o' && "fourteen"@[2] == 'u' && "fourteen"@[3] == 'r');
    assert("fifteen"@.len() == 7 && "fifteen"@[0] == 'f' && "fifteen"@[1] == 'i' && "fifteen"@[2] == 'f' && "fifteen"@[3] == 't');
    assert("sixteen"@.len() == 7 && "sixteen"@[0] == 's' && "sixteen"@[1] == 'i' && "sixteen"@[2] == 'x' && "sixteen"@[3] == 't');
    assert("seventeen"@.len() == 9 && "seventeen"@[0] == 's' && "seventeen"@[1] == 'e' && "seventeen"@[2] == 'v' && "seventeen"@[3] == 'e');
    assert("eighteen"@.len() == 8 && "eighteen"@[0] == 'e' && "eighteen"@[1] == 'i' && "eighteen"@[2] == 'g' && "eighteen"@[3] == 'h');
    assert("nineteen"@.len() == 8 && "nineteen"@[0] == 'n' && "nineteen"@[1] == 'i' && "nineteen"@[2] == 'n' && "nineteen"@[3] == 'e');
    assert("twenty"@.len() == 6 && "twenty"@[0] == 't' && "twenty"@[1] == 'w' && "twenty"@[2] == 'e' && "twenty"@[3] == 'n');
    assert("thirty"@.len() == 6 && "thirty"@[0] == 't' && "thirty"@[1] == 'h' && "thirty"@[2] == 'i' && "thirty"@[3] == 'r');
    assert("forty"@.len() == 5 && "forty"@[0] == 'f' && "forty"@[1] == 'o' && "forty"@[2] == 'r' && "forty"@[3] == 't');
    assert("fifty"@.len() == 5 && "fifty"@[4] == 'y' && "fifty"@[0] == 'f' && "fifty"@[1] == 'i' && "fifty"@[2] == 'f' && "fifty"@[3] == 't');
    assert("sixty"@.len() == 5 && "sixty"@[4] == 'y' && "sixty"@[0] == 's' && "sixty"@[1] == 'i' && "sixty"@[2] == 'x' && "sixty"@[3] == 't');
    assert("seventy"@.len() == 7 && "seventy"@[6] == 'y' && "seventy"@[0] == 's' && "seventy"@[1] == 'e' && "seventy"@[2] == 'v' && "seventy"@[3] == 'e');
    assert("eighty"@.len() == 6 && "eighty"@[5] == 'y' && "eighty"@[0] == 'e' && "eighty"@[1] == 'i' && "eighty"@[2] == 'g' && "eighty"@[3] == 'h');
    assert("ninety"@.len() == 6 && "ninety"@[0] == 'n' && "ninety"@[1] == 'i' && "ninety"@[2] == 'n' && "ninety"@[3] == 'e');
    assert("and"@.len() == 3 && "and"@[0] == 'a' && "and"@[1] == 'n' && "and"@[2] == 'd');
    assert("hundred"@.len() == 7 && "hundred"@[0] == 'h' && "hundred"@[1] == 'u' && "hundred"@[2] == 'n' && "hundred"@[3] == 'd');
    assert("thousand"@.len() == 8 && "thousand"@[0] == 't' && "thousand"@[1] == 'h' && "thousand"@[2] == 'o' && "thousand"@[3] == 'u');
    assert("million"@.len() == 7 && "million"@[0] == 'm' && "million"@[1] == 'i' && "million"@[2] == 'l' && "million"@[3] == 'l');
    assert("january"@.len() == 7 && "january"@[0] == 'j' && "january"@[1] == 'a' && "january"@[2] == 'n' && "january"@[3] == 'u');
    assert("february"@.len() == 8 && "february"@[0] == 'f' && "february"@[1] == 'e' && "february"@[2] == 'b' && "february"@[3] == 'r');
    assert("march"@.len() == 5 && "march"@[0] == 'm' && "march"@[1] == 'a' && "march"@[2] == 'r' && "march"@[3] == 'c');
    assert("april"@.len() == 5 && "april"@[0] == 'a' && "april"@[1] == 'p' && "april"@[2] == 'r' && "april"@[3] == 'i');
    assert("may"@.len() == 3 && "may"@[0] == 'm' && "may"@[1] == 'a' && "may"@[2] == 'y');
    assert("june"@.len() == 4 && "june"@[0] == 'j' && "june"@[1] == 'u' && "june"@[2] == 'n' && "june"@[3] == 'e');
    assert("july"@.len() == 4 && "july"@[0] == 'j' && "july"@[1] == 'u' && "july"@[2] == 'l' && "july"@[3] == 'y');
    assert("august"@.len() == 6 && "august"@[0] == 'a' && "august"@[1] == 'u' && "august"@[2] == 'g' && "august"@[3] == 'u');
    assert("september"@.len() == 9 && "september"@[0] == 's' && "september"@[1] == 'e' && "september"@[2] == 'p' && "september"@[3] == 't');
    assert("october"@.len() == 7 && "october"@[0] == 'o' && "october"@[1] == 'c' && "october"@[2] == 't' && "october"@[3] == 'o');
    assert("november"@.len() == 8 && "november"@[0] == 'n' && "november"@[1] == 'o' && "november"@[2] == 'v' && "november"@[3] == 'e');
    assert("december"@.len() == 8 && "december"@[0] == 'd' && "december"@[1] == 'e' && "december"@[2] == 'c' && "december"@[3] == 'e');
    assert("first"@.len() == 5 && "first"@[0] == 'f' && "first"@[1] == 'i' && "first"@[2] == 'r' && "first"@[3] == 's');
    assert("second"@.len() == 6 && "second"@[0] == 's' && "second"@[1] == 'e' && "second"@[2] == 'c' && "second"@[3] == 'o');
    assert("third"@.len() == 5 && "third"@[0] == 't' && "third"@[1] == 'h' && "third"@[2] == 'i' && "third"@[3] == 'r');
    assert("fourth"@.len() == 6 && "fourth"@[0] == 'f' && "fourth"@[1] == 'o' && "fourth"@[2] == 'u' && "fourth"@[3] == 'r');
    assert("fifth"@.len() == 5 && "fifth"@[4] == 'h' && "fifth"@[0] == 'f' && "fifth"@[1] == 'i' && "fifth"@[2] == 'f' && "fifth"@[3] == 't');
    assert("sixth"@.len() == 5 && "sixth"@[4] == 'h' && "sixth"@[0] == 's' && "sixth"@[1] == 'i' && "sixth"@[2] == 'x' && "sixth"@[3] == 't');
    assert("seventh"@.len() == 7 && "seventh"@[6] == 'h' && "seventh"@[0] == 's' && "seventh"@[1] == 'e' && "seventh"@[2] == 'v' && "seventh"@[3] == 'e');
    assert("eighth"@.len() == 6 && "eighth"@[5] == 'h' && "eighth"@[0] == 'e' && "eighth"@[1] == 'i' && "eighth"@[2] == 'g' && "eighth"@[3] == 'h');
    assert("ninth"@.len() == 5 && "ninth"@[0] == 'n' && "ninth"@[1] == 'i' && "ninth"@[2] == 'n' && "ninth"@[3] == 't');
    assert("tenth"@.len() == 5 && "tenth"@[0] == 't' && "tenth"@[1] == 'e' && "tenth"@[2] == 'n' && "tenth"@[3] == 't');
    assert("eleventh"@.len() == 8 && "eleventh"@[0] == 'e' && "eleventh"@[1] == 'l' && "eleventh"@[2] == 'e' && "eleventh"@[3] == 'v');
    assert("twelfth"@.len() == 7 && "twelfth"@[0] == 't' && "twelfth"@[1] == 'w' && "twelfth"@[2] == 'e' && "twelfth"@[3] == 'l');
    assert("thirteenth"@.len() == 10 && "thirteenth"@[0] == 't' && "thirteenth"@[1] == 'h' && "thirteenth"@[2] == 'i' && "thirteenth"@[3] == 'r');
    assert("fourteenth"@.len() == 10 && "fourteenth"@[0] == 'f' && "fourteenth"@[1] == 'o' && "fourteenth"@[2] == 'u' && "fourteenth"@[3] == 'r');
    assert("fifteenth"@.len() == 9 && "fifteenth"@[0] == 'f' && "fifteenth"@[1] == 'i' && "fifteenth"@[2] == 'f' && "fifteenth"@[3] == 't');
    assert("sixteenth"@.len() == 9 && "sixteenth"@[0] == 's' && "sixteenth"@[1] == 'i' && "sixteenth"@[2] == 'x' && "sixteenth"@[3] == 't');
    assert("seventeenth"@.len() == 11 && "seventeenth"@[0] == 's' && "seventeenth"@[1] == 'e' && "seventeenth"@[2] == 'v' && "seventeenth"@[3] == 'e');
    assert("eighteenth"@.len() == 10 && "eighteenth"@[0] == 'e' && "eighteenth"@[1] == 'i' && "eighteenth"@[2] == 'g' && "eighteenth"@[3] == 'h');
    assert("nineteenth"@.len() == 10 && "nineteenth"@[0] == 'n' && "nineteenth"@[1] == 'i' && "nineteenth"@[2] == 'n' && "nineteenth"@[3] == 'e');
    assert("twentieth"@.len() == 9 && "twentieth"@[0] == 't' && "twentieth"@[1] == 'w' && "twentieth"@[2] == 'e' && "twentieth"@[3] == 'n');
    assert("thirtieth"@.len() == 9 && "thirtieth"@[0] == 't' && "thirtieth"@[1] == 'h' && "thirtieth"@[2] == 'i' && "thirtieth"@[3] == 'r');
    assert("fortieth"@.len() == 8 && "fortieth"@[0] == 'f' && "fortieth"@[1] == 'o' && "fortieth"@[2] == 'r' && "fortieth"@[3] == 't');
    assert("fiftieth"@.len() == 8 && "fiftieth"@[0] == 'f' && "fiftieth"@[1] == 'i' && "fiftieth"@[2] == 'f' && "fiftieth"@[3] == 't');
    assert("sixtieth"@.len() == 8 && "sixtieth"@[0] == 's' && "sixtieth"@[1] == 'i' && "sixtieth"@[2] == 'x' && "sixtieth"@[3] == 't');
    assert("seventieth"@.len() == 10 && "seventieth"@[0] == 's' && "seventieth"@[1] == 'e' && "seventieth"@[2] == 'v' && "seventieth"@[3] == 'e');
    assert("eightieth"@.len() == 9 && "eightieth"@[0] == 'e' && "eightieth"@[1] == 'i' && "eightieth"@[2] == 'g' && "eightieth"@[3] == 'h');
    assert("ninetieth"@.len() == 9 && "ninetieth"@[0] == 'n' && "ninetieth"@[1] == 'i' && "ninetieth"@[2] == 'n' && "ninetieth"@[3] == 'e');
    assert("hundredth"@.len() == 9 && "hundredth"@[0] == 'h' && "hundredth"@[1] == 'u' && "hundredth"@[2] == 'n' && "hundredth"@[3] == 'd');
    assert("thousandth"@.len() == 10 && "thousandth"@[0] == 't' && "thousandth"@[1] == 'h' && "thousandth"@[2] == 'o' && "thousandth"@[3] == 'u');
    assert("millionth"@.len() == 9 && "millionth"@[0] == 'm' && "millionth"@[1] == 'i' && "millionth"@[2] == 'l' && "millionth"@[3] == 'l');
    assert("call"@.len() == 4 && "call"@[0] == 'c' && "call"@[1] == 'a' && "call"@[2] == 'l' && "call"@[3] == 'l');
    assert("the"@.len() == 3 && "the"@[0] == 't' && "the"@[1] == 'h' && "the"@[2] == 'e');
    assert("point"@.len() == 5 && "point"@[0] == 'p' && "point"@[1] == 'o' && "point"@[2] == 'i' && "point"@[3] == 'n');
    assert("percent"@.len() == 7 && "percent"@[0] == 'p' && "percent"@[1] == 'e' && "percent"@[2] == 'r' && "percent"@[3] == 'c');
    assert("m"@.len() == 1 && "m"@[0] == 'm');
    assert("half"@.len() == 4 && "half"@[0] == 'h' && "half"@[1] == 'a' && "half"@[2] == 'l' && "half"@[3] == 'f');
    assert("quarter"@.len() == 7 && "quarter"@[0] == 'q' && "quarter"@[1] == 'u' && "quarter"@[2] == 'a' && "quarter"@[3] == 'r');
}

/// No ordinal word is of another kind; one of them names a fraction too.
pub proof fn lemma_ordinal_words_apart(word: Seq<char>)
    requires
        ordinal_word(word) is Some,
    ensures
        word != "call"@,
        word != "the"@,
        word != "point"@,
        word != "percent"@,
        word != "m"@,
        !month_word(word),
{
    reveal_strlit("january");
    reveal_strlit("february");
    reveal_strlit("march");
    reveal_strlit("april");
    reveal_strlit("may");
    reveal_strlit("june");
    reveal_strlit("july");
    reveal_strlit("august");
    reveal_strlit("september");
    reveal_strlit("october");
    reveal_strlit("november");
    reveal_strlit("december");
    reveal_strlit("first");
    reveal_strlit("second");
    reveal_strlit("third");
    reveal_strlit("fourth");
    reveal_strlit("fifth");
    reveal_strlit("sixth");
    reveal_strlit("seventh");
    reveal_strlit("eighth");
    reveal_strlit("ninth");
    reveal_strlit("tenth");
    reveal_strlit("eleventh");
    reveal_strlit("twelfth");
    reveal_strlit("thirteenth");
    reveal_strlit("fourteenth");
    reveal_strlit("fifteenth");
    reveal_strlit("sixteenth");
    reveal_strlit("seventeenth");
    reveal_strlit("eighteenth");
    reveal_strlit("nineteenth");
    reveal_strlit("twentieth");
    reveal_strlit("thirtieth");
    reveal_strlit("fortieth");
    reveal_strlit("fiftieth");
    reveal_strlit("sixtieth");
    reveal_strlit("seventieth");
    reveal_strlit("eightieth");
    reveal_strlit("ninetieth");
    reveal_strlit("hundredth");
    reveal_strlit("thousandth");
    reveal_strlit("millionth");
    reveal_strlit("call");
    reveal_strlit("the");
    reveal_strlit("point");
    reveal_strlit("percent");
    reveal_strlit("m");
    assert("january"@.len() == 7 && "january"@[0] == 'j' && "january"@[1] == 'a');
    assert("february"@.len() == 8 && "february"@[0] == 'f' && "february"@[1] == 'e');
    assert("march"@.len() == 5 && "march"@[0] == 'm' && "march"@[1] == 'a');
    assert("april"@.len() == 5 && "april"@[0] == 'a' && "april"@[1] == 'p');
    assert("may"@.len() == 3 && "may"@[0] == 'm' && "may"@[1] == 'a');
    assert("june"@.len() == 4 && "june"@[0] == 'j' && "june"@[1] == 'u');
    assert("july"@.len() == 4 && "july"@[0] == 'j' && "july"@[1] == 'u');
    assert("august"@.len() == 6 && "august"@[0] == 'a' && "august"@[1] == 'u');
    assert("september"@.len() == 9 && "september"@[0] == 's' && "september"@[1] == 'e');
    assert("october"@.len() == 7 && "october"@[0] == 'o' && "october"@[1] == 'c');
    assert("november"@.len() == 8 && "november"@[0] == 'n' && "november"@[1] == 'o');
    assert("december"@.len() == 8 && "december"@[0] == 'd' && "december"@[1] == 'e');
    assert("first"@.len() == 5 && "first"@[0] == 'f' && "first"@[1] == 'i');
    assert("second"@.len() == 6 && "second"@[0] == 's' && "second"@[1] == 'e');
    assert("third"@.len() == 5 && "third"@[0] == 't' && "third"@[1] == 'h');
    assert("fourth"@.len() == 6 && "fourth"@[0] == 'f' && "fourth"@[1] == 'o');
    assert("fifth"@.len() == 5 && "fifth"@[0] == 'f' && "fifth"@[1] == 'i');
    assert("sixth"@.len() == 5 && "sixth"@[0] == 's' && "sixth"@[1] == 'i');
    assert("seventh"@.len() == 7 && "seventh"@[0] == 's' && "seventh"@[1] == 'e');
    assert("eighth"@.len() == 6 && "eighth"@[0] == 'e' && "eighth"@[1] == 'i');
    assert("ninth"@.len() == 5 && "ninth"@[0] == 'n' && "ninth"@[1] == 'i');
    assert("tenth"@.len() == 5 && "tenth"@[0] == 't' && "tenth"@[1] == 'e');
    assert("eleventh"@.len() == 8 && "eleventh"@[0] == 'e' && "eleventh"@[1] == 'l');
    assert("twelfth"@.len() == 7 && "twelfth"@[0] == 't' && "twelfth"@[1] == 'w');
    assert("thirteenth"@.len() == 10 && "thirteenth"@[0] == 't' && "thirteenth"@[1] == 'h');
    assert("fourteenth"@.len() == 10 && "fourteenth"@[0] == 'f' && "fourteenth"@[1] == 'o');
    assert("fifteenth"@.len() == 9 && "fifteenth"@[0] == 'f' && "fifteenth"@[1] == 'i');
    assert("sixteenth"@.len() == 9 && "sixteenth"@[0] == 's' && "sixteenth"@[1] == 'i');
    assert("seventeenth"@.len() == 11 && "seventeenth"@[0] == 's' && "seventeenth"@[1] == 'e');
    assert("eighteenth"@.len() == 10 && "eighteenth"@[0] == 'e' && "eighteenth"@[1] == 'i');
    assert("nineteenth"@.len() == 10 && "nineteenth"@[0] == 'n' && "nineteenth"@[1] == 'i');
    assert("twentieth"@.len() == 9 && "twentieth"@[0] == 't' && "twentieth"@[1] == 'w');
    assert("thirtieth"@.len() == 9 && "thirtieth"@[0] == 't' && "thirtieth"@[1] == 'h');
    assert("fortieth"@.len() == 8 && "fortieth"@[0] == 'f' && "fortieth"@[1] == 'o');
    assert("fiftieth"@.len() == 8 && "fiftieth"@[0] == 'f' && "fiftieth"@[1] == 'i');
    assert("sixtieth"@.len() == 8 && "sixtieth"@[0] == 's' && "sixtieth"@[1] == 'i');
    assert("seventieth"@.len() == 10 && "seventieth"@[0] == 's' && "seventieth"@[1] == 'e');
    assert("eightieth"@.len() == 9 && "eightieth"@[0] == 'e' && "eightieth"@[1] == 'i');
    assert("ninetieth"@.len() == 9 && "ninetieth"@[0] == 'n' && "ninetieth"@[1] == 'i');
    assert("hundredth"@.len() == 9 && "hundredth"@[0] == 'h' && "hundredth"@[1] == 'u');
    assert("thousandth"@.len() == 10 && "thousandth"@[0] == 't' && "thousandth"@[1] == 'h');
    assert("millionth"@.len() == 9 && "millionth"@[0] == 'm' && "millionth"@[1] == 'i');
    assert("call"@.len() == 4 && "call"@[0] == 'c' && "call"@[1] == 'a');
    assert("the"@.len() == 3 && "the"@[0] == 't' && "the"@[1] == 'h');
    assert("point"@.len() == 5 && "point"@[0] == 'p' && "point"@[1] == 'o');
    assert("percent"@.len() == 7 && "percent"@[0] == 'p' && "percent"@[1] == 'e');
    assert("m"@.len() == 1 && "m"@[0] == 'm');
}

/// No fraction word is of another kind but that of ordinals.
pub proof fn lemma_fraction_words_apart(word: Seq<char>)
    requires
        fraction_word(word) is Some,
    ensures
        word != "call"@,
        word != "point"@,
        word != "percent"@,
        word != "m"@,
        !month_word(word),
{
    reveal_strlit("january");
    reveal_strlit("february");
    reveal_strlit("march");
    reveal_strlit("april");
    reveal_strlit("may");
    reveal_strlit("june");
    reveal_strlit("july");
    reveal_strlit("august");
    reveal_strlit("september");
    reveal_strlit("october");
    reveal_strlit("november");
    reveal_strlit("december");
    reveal_strlit("half");
    reveal_strlit("third");
    reveal_strlit("quarter");
    reveal_strlit("call");
    reveal_strlit("point");
    reveal_strlit("percent");
    reveal_strlit("m");
    assert("january"@.len() == 7 && "january"@[0] == 'j' && "january"@[1] == 'a');
    assert("february"@.len() == 8 && "february"@[0] == 'f' && "february"@[1] == 'e');
    assert("march"@.len() == 5 && "march"@[0] == 'm' && "march"@[1] == 'a');
    assert("april"@.len() == 5 && "april"@[0] == 'a' && "april"@[1] == 'p');
    assert("may"@.len() == 3 && "may"@[0] == 'm' && "may"@[1] == 'a');
    assert("june"@.len() == 4 && "june"@[0] == 'j' && "june"@[1] == 'u');
    assert("july"@.len() == 4 && "july"@[0] == 'j' && "july"@[1] == 'u');
    assert("august"@.len() == 6 && "august"@[0] == 'a' && "august"@[1] == 'u');
    assert("september"@.len() == 9 && "september"@[0] == 's' && "september"@[1] == 'e');
    assert("october"@.len() == 7 && "october"@[0] == 'o' && "october"@[1] == 'c');
    assert("november"@.len() == 8 && "november"@[0] == 'n' && "november"@[1] == 'o');
    assert("december"@.len() == 8 && "december"@[0] == 'd' && "december"@[1] == 'e');
    assert("half"@.len() == 4 && "half"@[0] == 'h' && "half"@[1] == 'a');
    assert("third"@.len() == 5 && "third"@[0] == 't' && "third"@[1] == 'h');
    assert("quarter"@.len() == 7 && "quarter"@[0] == 'q' && "quarter"@[1] == 'u');
    assert("call"@.len() == 4 && "call"@[0] == 'c' && "call"@[1] == 'a');
    assert("point"@.len() == 5 && "point"@[0] == 'p' && "point"@[1] == 'o');
    assert("percent"@.len() == 7 && "percent"@[0] == 'p' && "percent"@[1] == 'e');
    assert("m"@.len() == 1 && "m"@[0] == 'm');
}

/// The word for percentages is of no other kind.
pub proof fn lemma_percent_apart()
    ensures
        "percent"@ != "m"@,
        cardinal_word("percent"@) is None,
        digit_word("percent"@) is None,
{
    reveal_strlit("zero");
    reveal_strlit("oh");
    reveal_strlit("one");
    reveal_strlit("two");
    reveal_strlit("three");
    reveal_strlit("four");
    reveal_strlit("five");
    reveal_strlit("six");
    reveal_strlit("seven");
    reveal_strlit("eight");
    reveal_strlit("nine");
    reveal_strlit("ten");
    reveal_strlit("eleven");
    reveal_strlit("twelve");
    reveal_strlit("thirteen");
    reveal_strlit("fourteen");
    reveal_strlit("fifteen");
    reveal_strlit("sixteen");
    reveal_strlit("seventeen");
    reveal_strlit("eighteen");
    reveal_strlit("nineteen");
    reveal_strlit("twenty");
    reveal_strlit("thirty");
    reveal_strlit("forty");
    reveal_strlit("fifty");
    reveal_strlit("sixty");
    reveal_strlit("seventy");
    reveal_strlit("eighty");
    reveal_strlit("ninety");
    reveal_strlit("percent");
    reveal_strlit("m");
    assert("zero"@.len() == 4 && "zero"@[0] == 'z');
    assert("oh"@.len() == 2 && "oh"@[0] == 'o');
    assert("one"@.len() == 3 && "one"@[0] == 'o');
    assert("two"@.len() == 3 && "two"@[0] == 't');
    assert("three"@.len() == 5 && "three"@[0] == 't');
    assert("four"@.len() == 4 && "four"@[0] == 'f');
    assert("five"@.len() == 4 && "five"@[0] == 'f');
    assert("six"@.len() == 3 && "six"@[0] == 's');
    assert("seven"@.len() == 5 && "seven"@[0] == 's');
    assert("eight"@.len() == 5 && "eight"@[0] == 'e');
    assert("nine"@.len() == 4 && "nine"@[0] == 'n');
    assert("ten"@.len() == 3 && "ten"@[0] == 't');
    assert("eleven"@.len() == 6 && "eleven"@[0] == 'e');
    assert("twelve"@.len() == 6 && "twelve"@[0] == 't');
    assert("thirteen"@.len() == 8 && "thirteen"@[0] == 't');
    assert("fourteen"@.len() == 8 && "fourteen"@[0] == 'f');
    assert("fifteen"@.len() == 7 && "fifteen"@[0] == 'f');
    assert("sixteen"@.len() == 7 && "sixteen"@[0] == 's');
    assert("seventeen"@.len() == 9 && "seventeen"@[0] == 's');
    assert("eighteen"@.len() == 8 && "eighteen"@[0] == 'e');
    assert("nineteen"@.len() == 8 && "nineteen"@[0] == 'n');
    assert("twenty"@.len() == 6 && "twenty"@[0] == 't');
    assert("thirty"@.len() == 6 && "thirty"@[0] == 't');
    assert("forty"@.len() == 5 && "forty"@[0] == 'f');
    assert("fifty"@.len() == 5 && "fifty"@[0] == 'f');
    assert("sixty"@.len() == 5 && "sixty"@[0] == 's');
    assert("seventy"@.len() == 7 && "seventy"@[0] == 's');
    assert("eighty"@.len() == 6 && "eighty"@[0] == 'e');
    assert("ninety"@.len() == 6 && "ninety"@[0] == 'n');
    assert("percent"@.len() == 7 && "percent"@[0] == 'p');
    assert("m"@.len() == 1 && "m"@[0] == 'm');
}

/// Ordinals of numbers that have a word of their own mostly follow from it: one that ends in `y`
/// gets `ieth` in its place, and the regular others get `th`.
pub proof fn law_ordinals_follow_cardinals(value: int)
    requires
        has_word(value) || value == 100 || value == 1_000 || value == 1_000_000,
    ensures
        20 <= value < 100 ==> ordinal_word(number_word(value).drop_last() + "ieth"@) == Some(value),
        value == 4 || value == 6 || value == 7 || value == 10 || value == 11 || 13 <= value < 20
            ==> ordinal_word(number_word(value) + "th"@) == Some(value),
        value == 100 ==> ordinal_word("hundred"@ + "th"@) == Some(value),
        value == 1_000 ==> ordinal_word("thousand"@ + "th"@) == Some(value),
        value == 1_000_000 ==> ordinal_word("million"@ + "th"@) == Some(value),
{
    lemma_regular_ordinals();
    lemma_ordinals_of_tens();
    assert(20 <= value < 100 ==> value == 20 || value == 30 || value == 40 || value == 50 || value
        == 60 || value == 70 || value == 80 || value == 90);
}

/// Each ordinal word has its value.
#[verifier::rlimit(60)]
proof fn lemma_ordinal_words()
    ensures
        ordinal_word("first"@) == Some(1int),
        ordinal_word("second"@) == Some(2int),
        ordinal_word("third"@) == Some(3int),
        ordinal_word("fourth"@) == Some(4int),
        ordinal_word("fifth"@) == Some(5int),
        ordinal_word("sixth"@) == Some(6int),
        ordinal_word("seventh"@) == Some(7int),
        ordinal_word("eighth"@) == Some(8int),
        ordinal_word("ninth"@) == Some(9int),
        ordinal_word("tenth"@) == Some(10int),
        ordinal_word("eleventh"@) == Some(11int),
        ordinal_word("twelfth"@) == Some(12int),
        ordinal_word("thirteenth"@) == Some(13int),
        ordinal_word("fourteenth"@) == Some(14int),
        ordinal_word("fifteenth"@) == Some(15int),
        ordinal_word("sixteenth"@) == Some(16int),
        ordinal_word("seventeenth"@) == Some(17int),
        ordinal_word("eighteenth"@) == Some(18int),
        ordinal_word("nineteenth"@) == Some(19int),
        ordinal_word("twentieth"@) == Some(20int),
        ordinal_word("thirtieth"@) == Some(30int),
        ordinal_word("fortieth"@) == Some(40int),
        ordinal_word("fiftieth"@) == Some(50int),
        ordinal_word("sixtieth"@) == Some(60int),
        ordinal_word("seventieth"@) == Some(70int),
        ordinal_word("eightieth"@) == Some(80int),
        ordinal_word("ninetieth"@) == Some(90int),
        ordinal_word("hundredth"@) == Some(100int),
        ordinal_word("thousandth"@) == Some(1_000int),
        ordinal_word("millionth"@) == Some(1_000_000int),
{
    reveal_strlit("first");
    reveal_strlit("second");
    reveal_strlit("third");
    reveal_strlit("fourth");
    reveal_strlit("fifth");
    reveal_strlit("sixth");
    reveal_strlit("seventh");
    reveal_strlit("eighth");
    reveal_strlit("ninth");
    reveal_strlit("tenth");
    reveal_strlit("eleventh");
    reveal_strlit("twelfth");
    reveal_strlit("thirteenth");
    reveal_strlit("fourteenth");
    reveal_strlit("fifteenth");
    reveal_strlit("sixteenth");
    reveal_strlit("seventeenth");
    reveal_strlit("eighteenth");
    reveal_strlit("nineteenth");
    reveal_strlit("twentieth");
    reveal_strlit("thirtieth");
    reveal_strlit("fortieth");
    reveal_strlit("fiftieth");
    reveal_strlit("sixtieth");
    reveal_strlit("seventieth");
    reveal_strlit("eightieth");
    reveal_strlit("ninetieth");
    reveal_strlit("hundredth");
    reveal_strlit("thousandth");
    reveal_strlit("millionth");
    assert("first"@.len() == 5 && "first"@[0] == 'f' && "first"@[1] == 'i' && "first"@[3] == 's');
    assert("second"@.len() == 6 && "second"@[0] == 's' && "second"@[1] == 'e' && "second"@[3] == 'o');
    assert("third"@.len() == 5 && "third"@[0] == 't' && "third"@[1] == 'h' && "third"@[3] == 'r');
    assert("fourth"@.len() == 6 && "fourth"@[0] == 'f' && "fourth"@[1] == 'o' && "fourth"@[3] == 'r');
    assert("fifth"@.len() == 5 && "fifth"@[0] == 'f' && "fifth"@[1] == 'i' && "fifth"@[3] == 't');
    assert("sixth"@.len() == 5 && "sixth"@[0] == 's' && "sixth"@[1] == 'i' && "sixth"@[3] == 't');
    assert("seventh"@.len() == 7 && "seventh"@[0] == 's' && "seventh"@[1] == 'e' && "seventh"@[3] == 'e');
    assert("eighth"@.len() == 6 && "eighth"@[0] == 'e' && "eighth"@[1] == 'i' && "eighth"@[3] == 'h');
    assert("ninth"@.len() == 5 && "ninth"@[0] == 'n' && "ninth"@[1] == 'i' && "ninth"@[3] == 't');
    assert("tenth"@.len() == 5 && "tenth"@[0] == 't' && "tenth"@[1] == 'e' && "tenth"@[3] == 't');
    assert("eleventh"@.len() == 8 && "eleventh"@[0] == 'e' && "eleventh"@[1] == 'l' && "eleventh"@[3] == 'v');
    assert("twelfth"@.len() == 7 && "twelfth"@[0] == 't' && "twelfth"@[1] == 'w' && "twelfth"@[3] == 'l');
    assert("thirteenth"@.len() == 10 && "thirteenth"@[0] == 't' && "thirteenth"@[1] == 'h' && "thirteenth"@[3] == 'r');
    assert("fourteenth"@.len() == 10 && "fourteenth"@[0] == 'f' && "fourteenth"@[1] == 'o' && "fourteenth"@[3] == 'r');
    assert("fifteenth"@.len() == 9 && "fifteenth"@[0] == 'f' && "fifteenth"@[1] == 'i' && "fifteenth"@[3] == 't');
    assert("sixteenth"@.len() == 9 && "sixteenth"@[0] == 's' && "sixteenth"@[1] == 'i' && "sixteenth"@[3] == 't');
    assert("seventeenth"@.len() == 11 && "seventeenth"@[0] == 's' && "seventeenth"@[1] == 'e' && "seventeenth"@[3] == 'e');
    assert("eighteenth"@.len() == 10 && "eighteenth"@[0] == 'e' && "eighteenth"@[1] == 'i' && "eighteenth"@[3] == 'h');
    assert("nineteenth"@.len() == 10 && "nineteenth"@[0] == 'n' && "nineteenth"@[1] == 'i' && "nineteenth"@[3] == 'e');
    assert("twentieth"@.len() == 9 && "twentieth"@[0] == 't' && "twentieth"@[1] == 'w' && "twentieth"@[3] == 'n');
    assert("thirtieth"@.len() == 9 && "thirtieth"@[0] == 't' && "thirtieth"@[1] == 'h' && "thirtieth"@[3] == 'r');
    assert("fortieth"@.len() == 8 && "fortieth"@[0] == 'f' && "fortieth"@[1] == 'o' && "fortieth"@[3] == 't');
    assert("fiftieth"@.len() == 8 && "fiftieth"@[0] == 'f' && "fiftieth"@[1] == 'i' && "fiftieth"@[3] == 't');
    assert("sixtieth"@.len() == 8 && "sixtieth"@[0] == 's' && "sixtieth"@[1] == 'i' && "sixtieth"@[3] == 't');
    assert("seventieth"@.len() == 10 && "seventieth"@[0] == 's' && "seventieth"@[1] == 'e' && "seventieth"@[3] == 'e');
    assert("eightieth"@.len() == 9 && "eightieth"@[0] == 'e' && "eightieth"@[1] == 'i' && "eightieth"@[3] == 'h');
    assert("ninetieth"@.len() == 9 && "ninetieth"@[0] == 'n' && "ninetieth"@[1] == 'i' && "ninetieth"@[3] == 'e');
    assert("hundredth"@.len() == 9 && "hundredth"@[0] == 'h' && "hundredth"@[1] == 'u' && "hundredth"@[3] == 'd');
    assert("thousandth"@.len() == 10 && "thousandth"@[0] == 't' && "thousandth"@[1] == 'h' && "thousandth"@[3] == 'u');
    assert("millionth"@.len() == 9 && "millionth"@[0] == 'm' && "millionth"@[1] == 'i' && "millionth"@[3] == 'l');
}

proof fn lemma_regular_ordinals()
    ensures
        ordinal_word("four"@ + "th"@) == Some(4int),
        ordinal_word("six"@ + "th"@) == Some(6int),
        ordinal_word("seven"@ + "th"@) == Some(7int),
        ordinal_word("ten"@ + "th"@) == Some(10int),
        ordinal_word("eleven"@ + "th"@) == Some(11int),
        ordinal_word("thirteen"@ + "th"@) == Some(13int),
        ordinal_word("fourteen"@ + "th"@) == Some(14int),
        ordinal_word("fifteen"@ + "th"@) == Some(15int),
        ordinal_word("sixteen"@ + "th"@) == Some(16int),
        ordinal_word("seventeen"@ + "th"@) == Some(17int),
        ordinal_word("eighteen"@ + "th"@) == Some(18int),
        ordinal_word("nineteen"@ + "th"@) == Some(19int),
        ordinal_word("hundred"@ + "th"@) == Some(100int),
        ordinal_word("thousand"@ + "th"@) == Some(1_000int),
        ordinal_word("million"@ + "th"@) == Some(1_000_000int),
{
    lemma_ordinal_words();
    reveal_strlit("th");
    reveal_strlit("four");
    reveal_strlit("fourth");
    assert("four"@ + "th"@ =~= "fourth"@);
    reveal_strlit("six");
    reveal_strlit("sixth");
    assert("six"@ + "th"@ =~= "sixth"@);
    reveal_strlit("seven");
    reveal_strlit("seventh");
    assert("seven"@ + "th"@ =~= "seventh"@);
    reveal_strlit("ten");
    reveal_strlit("tenth");
    assert("ten"@ + "th"@ =~= "tenth"@);
    reveal_strlit("eleven");
    reveal_strlit("eleventh");
    assert("eleven"@ + "th"@ =~= "eleventh"@);
    reveal_strlit("thirteen");
    reveal_strlit("thirteenth");
    assert("thirteen"@ + "th"@ =~= "thirteenth"@);
    reveal_strlit("fourteen");
    reveal_strlit("fourteenth");
    assert("fourteen"@ + "th"@ =~= "fourteenth"@);
    reveal_strlit("fifteen");
    reveal_strlit("fifteenth");
    assert("fifteen"@ + "th"@ =~= "fifteenth"@);
    reveal_strlit("sixteen");
    reveal_strlit("sixteenth");
    assert("sixteen"@ + "th"@ =~= "sixteenth"@);
    reveal_strlit("seventeen");
    reveal_strlit("seventeenth");
    assert("seventeen"@ + "th"@ =~= "seventeenth"@);
    reveal_strlit("eighteen");
    reveal_strlit("eighteenth");
    assert("eighteen"@ + "th"@ =~= "eighteenth"@);
    reveal_strlit("nineteen");
    reveal_strlit("nineteenth");
    assert("nineteen"@ + "th"@ =~= "nineteenth"@);
    reveal_strlit("hundred");
    reveal_strlit("hundredth");
    assert("hundred"@ + "th"@ =~= "hundredth"@);
    reveal_strlit("thousand");
    reveal_strlit("thousandth");
    assert("thousand"@ + "th"@ =~= "thousandth"@);
    reveal_strlit("million");
    reveal_strlit("millionth");
    assert("million"@ + "th"@ =~= "millionth"@);
}

proof fn lemma_ordinals_of_tens()
    ensures
        ordinal_word("twenty"@.drop_last() + "ieth"@) == Some(20int),
        ordinal_word("thirty"@.drop_last() + "ieth"@) == Some(30int),
        ordinal_word("forty"@.drop_last() + "ieth"@) == Some(40int),
        ordinal_word("fifty"@.drop_last() + "ieth"@) == Some(50int),
        ordinal_word("sixty"@.drop_last() + "ieth"@) == Some(60int),
        ordinal_word("seventy"@.drop_last() + "ieth"@) == Some(70int),
        ordinal_word("eighty"@.drop_last() + "ieth"@) == Some(80int),
        ordinal_word("ninety"@.drop_last() + "ieth"@) == Some(90int),
{
    lemma_ordinal_words();
    reveal_strlit("ieth");
    reveal_strlit("twenty");
    reveal_strlit("twentieth");
    assert("twenty"@.drop_last() + "ieth"@ =~= "twentieth"@);
    reveal_strlit("thirty");
    reveal_strlit("thirtieth");
    assert("thirty"@.drop_last() + "ieth"@ =~= "thirtieth"@);
    reveal_strlit("forty");
    reveal_strlit("fortieth");
    assert("forty"@.drop_last() + "ieth"@ =~= "fortieth"@);
    reveal_strlit("fifty");
    reveal_strlit("fiftieth");
    assert("fifty"@.drop_last() + "ieth"@ =~= "fiftieth"@);
    reveal_strlit("sixty");
    reveal_strlit("sixtieth");
    assert("sixty"@.drop_last() + "ieth"@ =~= "sixtieth"@);
    reveal_strlit("seventy");
    reveal_strlit("seventieth");
    assert("seventy"@.drop_last() + "ieth"@ =~= "seventieth"@);
    reveal_strlit("eighty");
    reveal_strlit("eightieth");
    assert("eighty"@.drop_last() + "ieth"@ =~= "eightieth"@);
    reveal_strlit("ninety");
    reveal_strlit("ninetieth");
    assert("ninety"@.drop_last() + "ieth"@ =~= "ninetieth"@);
}

/// An ordinal of tens and ones is their sum; one of a scaling word is so many times it.
pub proof fn law_ordinals_of_several_words(value: int, words: Seq<Seq<char>>, last: Seq<char>)
    requires
        cardinal_number(words) == Some(value),
        words.len() > 0,
        ordinal_word(last) is Some,
        value < 1_000_000,
    ensures
        ordinal_word(last)->0 < 100 ==> ordinal_number(words.push(last)) == Some(
            value + ordinal_word(last)->0,
        ),
        ordinal_word(last)->0 >= 100 ==> ordinal_number(words.push(last)) == Some(
            value * ordinal_word(last)->0,
        ),
{
    lemma_ordinal_words();
    lemma_numbers_are_natural(words);
    assert(words.push(last).drop_last() =~= words);
    let ordinal = ordinal_word(last)->0;
    assert(value * ordinal <= 1_000_000 * 1_000_000) by (nonlinear_arith)
        requires
            0 <= value < 1_000_000,
            0 <= ordinal <= 1_000_000,
    ;
}

/// The ending of an ordinal goes by its last digit, but numbers that end in eleven, twelve or
/// thirteen have the common one.
pub proof fn law_ordinal_endings(value: int)
    requires
        value >= 0,
    ensures
        ordinal_ending(value) == "st"@ <==> value % 10 == 1 && value % 100 != 11,
        ordinal_ending(value) == "nd"@ <==> value % 10 == 2 && value % 100 != 12,
        ordinal_ending(value) == "rd"@ <==> value % 10 == 3 && value % 100 != 13,
        ordinal_ending(value) == "st"@ || ordinal_ending(value) == "nd"@ || ordinal_ending(value)
            == "rd"@ || ordinal_ending(value) == "th"@,
        ordinal_ending(value).len() == 2,
{
    reveal_strlit("st");
    reveal_strlit("nd");
    reveal_strlit("rd");
    reveal_strlit("th");
    assert("st"@[0] == 's');
    assert("nd"@[0] == 'n');
    assert("rd"@[0] == 'r');
    assert("th"@[0] == 't');
}

/// No month begins a call.
pub proof fn lemma_months_apart(word: Seq<char>)
    requires
        month_word(word),
    ensures
        word != "call"@,
{
    reveal_strlit("january");
    reveal_strlit("february");
    reveal_strlit("march");
    reveal_strlit("april");
    reveal_strlit("may");
    reveal_strlit("june");
    reveal_strlit("july");
    reveal_strlit("august");
    reveal_strlit("september");
    reveal_strlit("october");
    reveal_strlit("november");
    reveal_strlit("december");
    reveal_strlit("call");
    assert("january"@.len() == 7 && "january"@[0] == 'j');
    assert("february"@.len() == 8 && "february"@[0] == 'f');
    assert("march"@.len() == 5 && "march"@[0] == 'm');
    assert("april"@.len() == 5 && "april"@[0] == 'a');
    assert("may"@.len() == 3 && "may"@[0] == 'm');
    assert("june"@.len() == 4 && "june"@[0] == 'j');
    assert("july"@.len() == 4 && "july"@[0] == 'j');
    assert("august"@.len() == 6 && "august"@[0] == 'a');
    assert("september"@.len() == 9 && "september"@[0] == 's');
    assert("october"@.len() == 7 && "october"@[0] == 'o');
    assert("november"@.len() == 8 && "november"@[0] == 'n');
    assert("december"@.len() == 8 && "december"@[0] == 'd');
    assert("call"@.len() == 4 && "call"@[0] == 'c');
}

}
