//! The version of a build, from what the version control says of the sources.

use vstd::prelude::*;

use crate::numeric;
use crate::text;
use crate::text::{chars_of, matches_at, part, push_chars, push_text};

verus! {

/// The last position under `end` where `pattern` stands in `content`.
pub open spec fn last_text(content: Seq<char>, pattern: Seq<char>, end: int) -> Option<int>
    decreases end,
{
    if end <= 0 {
        None
    } else if text::occurs_at(content, pattern, end - 1) {
        Some(end - 1)
    } else {
        last_text(content, pattern, end - 1)
    }
}

/// Finds the last position where `pattern` stands in `content`.
fn find_last(content: &[char], pattern: &[char]) -> (result: Option<usize>)
    ensures
        match result {
            Some(at) => last_text(content@, pattern@, content@.len() as int) == Some(at as int)
                && text::occurs_at(content@, pattern@, at as int),
            None => last_text(content@, pattern@, content@.len() as int) is None,
        },
{
    let mut end: usize = content.len();
    while end > 0
        invariant
            end <= content@.len(),
            last_text(content@, pattern@, end as int) == last_text(
                content@,
                pattern@,
                content@.len() as int,
            ),
        decreases end,
    {
        if matches_at(content, pattern, end - 1) {
            return Some(end - 1);
        }
        end = end - 1;
    }
    None
}

/// A hexadecimal digit.
pub open spec fn is_hex_digit(character: char) -> bool {
    ||| '0' <= character <= '9'
    ||| 'a' <= character <= 'f'
    ||| 'A' <= character <= 'F'
}

/// A short name of a commit: at least six hexadecimal digits.
pub open spec fn is_hash(name: Seq<char>) -> bool {
    name.len() >= 6 && forall|index: int|
        0 <= index < name.len() ==> is_hex_digit(#[trigger] name[index])
}

/// Whether a text is a short name of a commit.
fn check_hash(name: &[char]) -> (result: bool)
    ensures
        result == is_hash(name@),
{
    if name.len() < 6 {
        return false;
    }
    for index in 0..name.len()
        invariant
            forall|place: int| 0 <= place < index ==> is_hex_digit(#[trigger] name@[place]),
    {
        let character: char = name[index];
        if !(('0' <= character && character <= '9') || ('a' <= character && character <= 'f') || (
        'A' <= character && character <= 'F')) {
            assert(!is_hex_digit(name@[index as int]));
            return false;
        }
    }
    true
}

/// The number that decimal digits stand for.
pub open spec fn digits_value(digits: Seq<char>) -> int
    decreases digits.len(),
{
    if digits.len() == 0 {
        0
    } else {
        digits_value(digits.drop_last()) * 10 + (digits.last() as int - 48)
    }
}

/// A numeral without the plus sign that it may have.
pub open spec fn unsigned(numeral: Seq<char>) -> Seq<char> {
    if numeral.len() > 0 && numeral[0] == '+' {
        numeral.skip(1)
    } else {
        numeral
    }
}

/// The number of a numeral: decimal digits, possibly after a plus sign, if it can be counted.
pub open spec fn numeral_value(numeral: Seq<char>) -> Option<int> {
    let digits = unsigned(numeral);
    if digits.len() > 0 && text::all_ascii_digits(digits) && digits_value(digits) <= u64::MAX {
        Some(digits_value(digits))
    } else {
        None
    }
}

proof fn lemma_digits_grow(digits: Seq<char>, count: int)
    requires
        text::all_ascii_digits(digits),
        0 <= count <= digits.len(),
    ensures
        0 <= digits_value(digits.take(count)) <= digits_value(digits),
    decreases digits.len() - count,
{
    if count < digits.len() {
        lemma_digits_grow(digits, count + 1);
        assert(digits.take(count + 1).drop_last() =~= digits.take(count));
        assert(text::is_ascii_digit(digits[count]));
    } else {
        assert(digits.take(count) =~= digits);
    }
    lemma_digits_positive(digits.take(count));
}

proof fn lemma_digits_positive(digits: Seq<char>)
    requires
        text::all_ascii_digits(digits),
    ensures
        0 <= digits_value(digits),
    decreases digits.len(),
{
    if digits.len() > 0 {
        assert(text::is_ascii_digit(digits[digits.len() - 1]));
        assert forall|index: int| 0 <= index < digits.drop_last().len() implies text::is_ascii_digit(
            #[trigger] digits.drop_last()[index],
        ) by {
            assert(text::is_ascii_digit(digits[index]));
        }
        lemma_digits_positive(digits.drop_last());
    }
}

/// The number of a numeral.
fn parse_numeral(numeral: &[char]) -> (result: Option<u64>)
    ensures
        match result {
            Some(value) => numeral_value(numeral@) == Some(value as int),
            None => numeral_value(numeral@) is None,
        },
{
    let skipped: usize = if numeral.len() > 0 && numeral[0] == '+' {
        1
    } else {
        0
    };
    let digits: Vec<char> = part(numeral, skipped, numeral.len());
    assert(digits@ =~= unsigned(numeral@));
    if digits.len() == 0 || !text::are_ascii_digits(&digits) {
        return None;
    }
    let mut value: u64 = 0;
    for index in 0..digits.len()
        invariant
            text::all_ascii_digits(digits@),
            digits@ == unsigned(numeral@),
            value == digits_value(digits@.take(index as int)),
    {
        assert(digits@.take(index + 1).drop_last() =~= digits@.take(index as int));
        assert(text::is_ascii_digit(digits@[index as int]));
        proof {
            lemma_digits_grow(digits@, index + 1);
        }
        let digit: u64 = digits[index] as u64 - 48;
        let tens: u64 = match value.checked_mul(10) {
            Some(tens) => tens,
            None => {
                return None;
            },
        };
        value = match tens.checked_add(digit) {
            Some(sum) => sum,
            None => {
                return None;
            },
        };
    }
    assert(digits@.take(digits@.len() as int) =~= digits@);
    Some(value)
}

/// What a description says: the last tag, how many commits came after it, and the commit's name.
pub open spec fn described(describe: Seq<char>) -> Option<(Seq<char>, int, Seq<char>)> {
    match last_text(describe, "-g"@, describe.len() as int) {
        None => None,
        Some(mark) => {
            let hash = describe.skip(mark + 2);
            let before = describe.take(mark);
            match last_text(before, "-"@, before.len() as int) {
                None => None,
                Some(dash) => match numeral_value(before.skip(dash + 1)) {
                    None => None,
                    Some(count) => if is_hash(hash) {
                        Some((before.take(dash), count, hash))
                    } else {
                        None
                    },
                },
            }
        },
    }
}

/// A description taken apart.
#[derive(Debug)]
pub struct Description {
    pub tag: Vec<char>,
    pub commits: u64,
    pub hash: Vec<char>,
}

/// The content of a description.
pub open spec fn description_view(description: Option<Description>) -> Option<
    (Seq<char>, int, Seq<char>),
> {
    match description {
        Some(description) => Some(
            (description.tag@, description.commits as int, description.hash@),
        ),
        None => None,
    }
}

/// Takes a description apart.
pub fn parse_describe(describe: &[char]) -> (result: Option<Description>)
    ensures
        description_view(result) == described(describe@),
{
    let mark_text: Vec<char> = chars_of("-g");
    let dash_text: Vec<char> = chars_of("-");
    proof {
        reveal_strlit("-g");
        reveal_strlit("-");
    }
    let mark: usize = match find_last(describe, &mark_text) {
        Some(mark) => mark,
        None => {
            return None;
        },
    };
    let total: usize = describe.len();
    let hash: Vec<char> = part(describe, mark + 2, total);
    assert(hash@ =~= describe@.skip(mark + 2));
    let before: Vec<char> = part(describe, 0, mark);
    assert(before@ =~= describe@.take(mark as int));
    if !check_hash(&hash) {
        return None;
    }
    let dash: usize = match find_last(&before, &dash_text) {
        Some(dash) => dash,
        None => {
            return None;
        },
    };
    let numeral: Vec<char> = part(&before, dash + 1, before.len());
    assert(numeral@ =~= before@.skip(dash + 1));
    let commits: u64 = match parse_numeral(&numeral) {
        Some(commits) => commits,
        None => {
            return None;
        },
    };
    let tag: Vec<char> = part(&before, 0, dash);
    assert(tag@ =~= before@.take(dash as int));
    Some(Description { tag, commits, hash })
}

/// The sources have changes that are not committed.
pub open spec fn is_dirty(describe: Seq<char>) -> bool {
    text::occurs_at(describe, "-dirty"@, describe.len() - "-dirty"@.len())
}

/// The version of a build: the tag itself when nothing came after it, else the tag, or the
/// package's version where there is none, and the commit. A caret before the commit says that
/// there are changes.
pub open spec fn commit_version(
    package_version: Seq<char>,
    describe: Seq<char>,
    short_hash: Seq<char>,
) -> Seq<char> {
    let dirty = is_dirty(describe);
    let clean = if dirty {
        describe.take(describe.len() - "-dirty"@.len())
    } else {
        describe
    };
    let base = match described(clean) {
        Some((tag, commits, hash)) => tag,
        None => "v"@ + package_version,
    };
    let tagged = match described(clean) {
        Some((tag, commits, hash)) => commits == 0,
        None => false,
    };
    if dirty {
        base + "^"@ + short_hash
    } else if tagged {
        base
    } else {
        base + "-"@ + short_hash
    }
}

/// The version of a build.
pub fn git_commit_version(package_version: &[char], describe: &[char], short_hash: &[char]) -> (
result: Vec<char>)
    ensures
        result@ == commit_version(package_version@, describe@, short_hash@),
{
    let suffix: Vec<char> = chars_of("-dirty");
    let dirty: bool = describe.len() >= suffix.len() && matches_at(
        describe,
        &suffix,
        describe.len() - suffix.len(),
    );
    let end: usize = if dirty {
        describe.len() - suffix.len()
    } else {
        describe.len()
    };
    let clean: Vec<char> = part(describe, 0, end);
    assert(clean@ =~= if dirty {
        describe@.take(describe@.len() - "-dirty"@.len())
    } else {
        describe@
    });
    let mut tagged: bool = false;
    let mut version: Vec<char> = match parse_describe(&clean) {
        Some(description) => {
            tagged = description.commits == 0;
            description.tag
        },
        None => {
            let mut version: Vec<char> = chars_of("v");
            push_chars(&mut version, package_version);
            version
        },
    };
    if dirty {
        push_text(&mut version, "^");
        push_chars(&mut version, short_hash);
    } else if !tagged {
        push_text(&mut version, "-");
        push_chars(&mut version, short_hash);
    }
    version
}

proof fn lemma_last_text(content: Seq<char>, pattern: Seq<char>, end: int, at: int)
    requires
        0 <= at < end,
        text::occurs_at(content, pattern, at),
        forall|later: int| at < later < end ==> !text::occurs_at(content, pattern, later),
    ensures
        last_text(content, pattern, end) == Some(at),
    decreases end - at,
{
    if at < end - 1 {
        lemma_last_text(content, pattern, end - 1, at);
    }
}

/// A description reads back: a tag, a number of commits and a commit's name are what is found in the
/// text that joins them, whatever the tag looks like.
pub proof fn law_descriptions_read_back(tag: Seq<char>, commits: nat, hash: Seq<char>)
    requires
        commits <= u64::MAX,
        is_hash(hash),
    ensures
        described(tag + "-"@ + text::decimal(commits) + "-g"@ + hash) == Some(
            (tag, commits as int, hash),
        ),
{
    reveal_strlit("-");
    reveal_strlit("-g");
    let number = text::decimal(commits);
    numeric::lemma_decimal_value(commits);
    let whole = tag + "-"@ + number + "-g"@ + hash;
    let mark = (tag.len() + 1 + number.len()) as int;
    let before = tag + "-"@ + number;
    assert("-g"@[0] == '-' && "-g"@[1] == 'g' && "-"@[0] == '-');
    assert(whole.subrange(mark, mark + 2) =~= "-g"@);
    assert forall|later: int| mark < later < whole.len() implies !text::occurs_at(
        whole,
        "-g"@,
        later,
    ) by {
        if text::occurs_at(whole, "-g"@, later) {
            assert(whole.subrange(later, later + 2)[0] == '-');
            assert(whole[later] == '-');
            if later >= mark + 2 {
                assert(whole[later] == hash[later - mark - 2]);
                assert(is_hex_digit(hash[later - mark - 2]));
            } else {
                assert(whole[mark + 1] == 'g');
            }
        }
    }
    lemma_last_text(whole, "-g"@, whole.len() as int, mark);
    assert(whole.skip(mark + 2) =~= hash);
    assert(whole.take(mark) =~= before);
    let dash = tag.len() as int;
    assert(before.subrange(dash, dash + 1) =~= "-"@);
    assert forall|later: int| dash < later < before.len() implies !text::occurs_at(
        before,
        "-"@,
        later,
    ) by {
        if text::occurs_at(before, "-"@, later) {
            assert(before.subrange(later, later + 1)[0] == '-');
            assert(before[later] == number[later - dash - 1]);
            assert('0' <= number[later - dash - 1]);
        }
    }
    lemma_last_text(before, "-"@, before.len() as int, dash);
    assert(before.skip(dash + 1) =~= number);
    assert(before.take(dash) =~= tag);
    assert('0' <= number[0] <= '9');
    assert(text::all_ascii_digits(number)) by {
        assert forall|index: int| 0 <= index < number.len() implies text::is_ascii_digit(
            #[trigger] number[index],
        ) by {
            assert('0' <= number[index] <= '9');
        }
    }
    lemma_same_digits_value(number);
}

proof fn lemma_same_digits_value(digits: Seq<char>)
    ensures
        digits_value(digits) == numeric::digits_value(digits),
    decreases digits.len(),
{
    if digits.len() > 0 {
        lemma_same_digits_value(digits.drop_last());
    }
}

/// The version of a described build: right at a tag it is the tag; after it, the commit's name
/// follows behind a hyphen; with changes that are not committed it follows behind a caret, at a tag
/// too.
pub proof fn law_versions_name_tag_and_commit(
    package_version: Seq<char>,
    tag: Seq<char>,
    commits: nat,
    hash: Seq<char>,
    short_hash: Seq<char>,
)
    requires
        commits <= u64::MAX,
        is_hash(hash),
    ensures
        ({
            let describe = tag + "-"@ + text::decimal(commits) + "-g"@ + hash;
            &&& commits == 0 ==> commit_version(package_version, describe, short_hash) == tag
            &&& commits > 0 ==> commit_version(package_version, describe, short_hash) == tag + "-"@
                + short_hash
            &&& commit_version(package_version, describe + "-dirty"@, short_hash) == tag + "^"@
                + short_hash
        }),
{
    reveal_strlit("-dirty");
    let describe = tag + "-"@ + text::decimal(commits) + "-g"@ + hash;
    law_descriptions_read_back(tag, commits, hash);
    assert("-dirty"@[5] == 'y');
    assert(!is_dirty(describe)) by {
        if is_dirty(describe) {
            let at = describe.len() - 6;
            assert(describe.subrange(at, at + 6)[5] == 'y');
            assert(describe[describe.len() - 1] == hash[hash.len() - 1]);
            assert(is_hex_digit(hash[hash.len() - 1]));
        }
    }
    let dirty = describe + "-dirty"@;
    assert(dirty.subrange(dirty.len() - 6, dirty.len() as int) =~= "-dirty"@);
    assert(dirty.take(dirty.len() - 6) =~= describe);
}

}
