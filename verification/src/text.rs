//! Splitting text and reading and writing numbers.

use vstd::arithmetic::power::pow;
use vstd::prelude::*;
use vstd::string::{StrSliceExecFns, StringExecFns};

verus! {

/// The parts of `text` between the separators.
pub open spec fn split_spec(text: Seq<char>, separator: char) -> Seq<Seq<char>>
    decreases text.len(),
{
    match text.index_of_first(separator) {
        Some(i) => if 0 <= i < text.len() {
            seq![text.take(i)] + split_spec(text.skip(i + 1), separator)
        } else {
            seq![text]
        },
        None => seq![text],
    }
}

/// The texts that string slices stand for.
pub open spec fn texts(parts: Seq<&str>) -> Seq<Seq<char>> {
    parts.map_values(|part: &str| part@)
}

proof fn lemma_split_at(text: Seq<char>, separator: char, i: int)
    requires
        0 <= i < text.len(),
        text[i] == separator,
        forall|k: int| 0 <= k < i ==> text[k] != separator,
    ensures
        split_spec(text, separator) == seq![text.take(i)] + split_spec(
            text.skip(i + 1),
            separator,
        ),
{
    text.index_of_first_ensures(separator);
    assert(text.contains(separator));
}

proof fn lemma_split_end(text: Seq<char>, separator: char)
    requires
        forall|k: int| 0 <= k < text.len() ==> text[k] != separator,
    ensures
        split_spec(text, separator) == seq![text],
{
    text.index_of_first_ensures(separator);
}

/// Splits `text` at every separator.
pub fn split<'a>(text: &'a str, separator: char) -> (parts: Vec<&'a str>)
    ensures
        texts(parts@) == split_spec(text@, separator),
        parts@.len() > 0,
{
    let length = text.unicode_len();
    let mut parts: Vec<&'a str> = Vec::new();
    let mut start: usize = 0;
    let mut i: usize = 0;
    assert(text@.skip(0) =~= text@);
    assert(texts(parts@) + split_spec(text@.skip(0), separator) =~= split_spec(text@, separator));
    while i < length
        invariant
            length == text@.len(),
            start <= i <= length,
            forall|k: int| start <= k < i ==> text@[k] != separator,
            texts(parts@) + split_spec(text@.skip(start as int), separator) == split_spec(
                text@,
                separator,
            ),
        decreases length - i,
    {
        if text.get_char(i) == separator {
            let part = text.substring_char(start, i);
            let ghost before = parts@;
            let ghost rest = text@.skip(start as int);
            proof {
                assert forall|k: int| 0 <= k < i - start implies rest[k] != separator by {
                    assert(rest[k] == text@[start + k]);
                }
                lemma_split_at(rest, separator, i - start);
                assert(rest.take(i - start) =~= text@.subrange(start as int, i as int));
                assert(rest.skip(i - start + 1) =~= text@.skip(i + 1));
            }
            parts.push(part);
            proof {
                assert(texts(parts@) =~= texts(before) + seq![part@]);
                assert(texts(before) + (seq![part@] + split_spec(text@.skip(i + 1), separator))
                    =~= texts(parts@) + split_spec(text@.skip(i + 1), separator));
            }
            start = i + 1;
        }
        i += 1;
    }
    let part = text.substring_char(start, length);
    let ghost before = parts@;
    let ghost rest = text@.skip(start as int);
    proof {
        assert forall|k: int| 0 <= k < rest.len() implies rest[k] != separator by {
            assert(rest[k] == text@[start + k]);
        }
        lemma_split_end(rest, separator);
        assert(rest =~= part@);
    }
    parts.push(part);
    assert(texts(parts@) =~= texts(before) + seq![part@]);
    parts
}

/// The texts of strings.
pub open spec fn strings(strings: Seq<String>) -> Seq<Seq<char>> {
    strings.map_values(|string: String| string@)
}

/// Whether a character is white space, as Unicode has it.
pub open spec fn is_white(c: char) -> bool {
    let code = c as int;
    ||| 0x09 <= code <= 0x0d
    ||| code == 0x20
    ||| code == 0x85
    ||| code == 0xa0
    ||| code == 0x1680
    ||| 0x2000 <= code <= 0x200a
    ||| code == 0x2028
    ||| code == 0x2029
    ||| code == 0x202f
    ||| code == 0x205f
    ||| code == 0x3000
}

/// Whether a word goes on behind the end of `text`.
pub open spec fn ends_in_word(text: Seq<char>) -> bool {
    text.len() > 0 && !is_white(text.last())
}

/// The words of `text`: its longest parts without white space, in their order.
pub open spec fn words_spec(text: Seq<char>) -> Seq<Seq<char>>
    decreases text.len(),
{
    if text.len() == 0 {
        Seq::empty()
    } else {
        let front = words_spec(text.drop_last());
        if is_white(text.last()) {
            front
        } else if ends_in_word(text.drop_last()) {
            front.drop_last().push(front.last().push(text.last()))
        } else {
            front.push(seq![text.last()])
        }
    }
}

fn white(c: char) -> (white: bool)
    ensures
        white == is_white(c),
{
    let code: u32 = c as u32;
    (0x09 <= code && code <= 0x0d) || code == 0x20 || code == 0x85 || code == 0xa0 || code == 0x1680
        || (0x2000 <= code && code <= 0x200a) || code == 0x2028 || code == 0x2029 || code == 0x202f
        || code == 0x205f || code == 0x3000
}

/// Splits `text` at white space.
pub fn words(text: &str) -> (words: Vec<String>)
    ensures
        strings(words@) == words_spec(text@),
{
    let length: usize = text.unicode_len();
    let mut words: Vec<String> = Vec::new();
    let mut start: usize = 0;
    let mut i: usize = 0;
    assert(strings(words@) =~= words_spec(text@.take(0)));
    while i < length
        invariant
            length == text@.len(),
            start <= i <= length,
            start < i <==> ends_in_word(text@.take(i as int)),
            words_spec(text@.take(i as int)) == if start < i {
                strings(words@).push(text@.subrange(start as int, i as int))
            } else {
                strings(words@)
            },
        decreases length - i,
    {
        let ghost front = text@.take(i + 1);
        let ghost before = strings(words@);
        proof {
            assert(front.drop_last() =~= text@.take(i as int));
            assert(front.last() == text@[i as int]);
        }
        if white(text.get_char(i)) {
            if start < i {
                let word = text.substring_char(start, i).to_owned();
                words.push(word);
                assert(strings(words@) =~= before.push(word@));
            }
            start = i + 1;
        } else {
            proof {
                let word = text@.subrange(start as int, i as int);
                let longer = text@.subrange(start as int, i + 1);
                assert(longer =~= word.push(text@[i as int]));
                if start < i {
                    assert(before.push(word).drop_last() =~= before);
                } else {
                    assert(longer =~= seq![text@[i as int]]);
                }
            }
        }
        i += 1;
    }
    assert(text@.take(length as int) =~= text@);
    if start < length {
        let ghost before = strings(words@);
        let word = text.substring_char(start, length).to_owned();
        words.push(word);
        assert(strings(words@) =~= before.push(word@));
    }
    words
}

/// Whether `text` starts with `prefix`.
pub open spec fn has_prefix(text: Seq<char>, prefix: Seq<char>) -> bool {
    prefix.len() <= text.len() && text.take(prefix.len() as int) == prefix
}

/// Whether `text` ends with `suffix`.
pub open spec fn has_suffix(text: Seq<char>, suffix: Seq<char>) -> bool {
    suffix.len() <= text.len() && text.skip(text.len() - suffix.len()) == suffix
}

/// Whether `part` stands in `text` at `start`.
fn stands_at(text: &str, part: &str, start: usize) -> (stands: bool)
    requires
        start + part@.len() <= text@.len(),
    ensures
        stands == (text@.subrange(start as int, start + part@.len()) == part@),
{
    let whole: usize = text.unicode_len();
    let length: usize = part.unicode_len();
    let ghost found = text@.subrange(start as int, start + length);
    let mut i: usize = 0;
    while i < length
        invariant
            i <= length == part@.len(),
            start + length <= whole == text@.len(),
            found == text@.subrange(start as int, start + length),
            forall|k: int| 0 <= k < i ==> found[k] == part@[k],
        decreases length - i,
    {
        if text.get_char(start + i) != part.get_char(i) {
            assert(found[i as int] != part@[i as int]);
            return false;
        }
        i += 1;
    }
    assert(found =~= part@);
    true
}

/// Whether a text starts with another.
pub fn starts_with(text: &str, prefix: &str) -> (starts: bool)
    ensures
        starts == has_prefix(text@, prefix@),
{
    let length: usize = text.unicode_len();
    if prefix.unicode_len() > length {
        return false;
    }
    assert(text@.take(prefix@.len() as int) =~= text@.subrange(0, prefix@.len() as int));
    stands_at(text, prefix, 0)
}

/// Whether a text ends with another.
pub fn ends_with(text: &str, suffix: &str) -> (ends: bool)
    ensures
        ends == has_suffix(text@, suffix@),
{
    let length: usize = text.unicode_len();
    let count: usize = suffix.unicode_len();
    if count > length {
        return false;
    }
    assert(text@.skip(length - count) =~= text@.subrange(length - count, length - count + count));
    stands_at(text, suffix, length - count)
}

/// What a digit stands for in the given radix, which is at most 16.
pub open spec fn digit_spec(digit: char, radix: int) -> Option<int> {
    let value = if '0' <= digit && digit <= '9' {
        digit as int - '0' as int
    } else if 'a' <= digit && digit <= 'f' {
        digit as int - 'a' as int + 10
    } else if 'A' <= digit && digit <= 'F' {
        digit as int - 'A' as int + 10
    } else {
        radix
    };
    if value < radix {
        Some(value)
    } else {
        None
    }
}

/// The number that digits stand for; an empty row of digits stands for zero.
pub open spec fn digits_spec(digits: Seq<char>, radix: int) -> Option<int>
    decreases digits.len(),
{
    if digits.len() == 0 {
        Some(0)
    } else {
        match (digits_spec(digits.drop_last(), radix), digit_spec(digits.last(), radix)) {
            (Some(high), Some(low)) => Some(high * radix + low),
            _ => None,
        }
    }
}

/// The number that `text` stands for: one or more digits behind an optional plus sign, no
/// larger than `max`.
pub open spec fn number_spec(text: Seq<char>, radix: int, max: int) -> Option<int> {
    let digits = if text.len() > 0 && text[0] == '+' {
        text.skip(1)
    } else {
        text
    };
    match digits_spec(digits, radix) {
        Some(value) => if digits.len() > 0 && value <= max {
            Some(value)
        } else {
            None
        },
        None => None,
    }
}

fn digit(c: char, radix: u32) -> (value: Option<u32>)
    requires
        2 <= radix <= 16,
    ensures
        match value {
            Some(value) => digit_spec(c, radix as int) == Some(value as int),
            None => digit_spec(c, radix as int) is None,
        },
{
    let value: u32 = if '0' <= c && c <= '9' {
        c as u32 - '0' as u32
    } else if 'a' <= c && c <= 'f' {
        c as u32 - 'a' as u32 + 10
    } else if 'A' <= c && c <= 'F' {
        c as u32 - 'A' as u32 + 10
    } else {
        radix
    };
    if value < radix {
        Some(value)
    } else {
        None
    }
}

proof fn lemma_digits_grow(digits: Seq<char>, radix: int, length: int)
    requires
        radix >= 2,
        0 <= length <= digits.len(),
    ensures
        digits_spec(digits, radix) matches Some(all) ==> 0 <= all && digits_spec(
            digits.take(length),
            radix,
        ) is Some && digits_spec(digits.take(length), radix)->0 <= all,
        digits_spec(digits.take(length), radix) is None ==> digits_spec(digits, radix) is None,
    decreases digits.len(),
{
    if length == digits.len() {
        assert(digits.take(length) =~= digits);
        if digits.len() > 0 {
            assert(digits.drop_last() =~= digits.take(length - 1));
            lemma_digits_grow(digits.drop_last(), radix, 0);
            if digits_spec(digits, radix) is Some {
                let high = digits_spec(digits.drop_last(), radix)->0;
                assert(high * radix >= 0) by (nonlinear_arith)
                    requires
                        high >= 0,
                        radix >= 2,
                ;
            }
        }
    } else {
        let front = digits.drop_last();
        assert(front.take(length) =~= digits.take(length));
        lemma_digits_grow(front, radix, length);
        if digits_spec(digits, radix) is Some {
            let high = digits_spec(front, radix)->0;
            assert(high * radix >= high) by (nonlinear_arith)
                requires
                    high >= 0,
                    radix >= 2,
            ;
        }
    }
}

/// Reads a number, as [`number_spec`] says.
pub fn number(text: &str, radix: u32, max: u64) -> (value: Option<u64>)
    requires
        2 <= radix <= 16,
    ensures
        match value {
            Some(value) => number_spec(text@, radix as int, max as int) == Some(value as int),
            None => number_spec(text@, radix as int, max as int) is None,
        },
{
    let length = text.unicode_len();
    let start: usize = if length > 0 && text.get_char(0) == '+' {
        1
    } else {
        0
    };
    let ghost digits = if start == 1 {
        text@.skip(1)
    } else {
        text@
    };
    if start == length {
        return None;
    }
    let mut value: u64 = 0;
    let mut i: usize = start;
    assert(digits.take(0).len() == 0);
    while i < length
        invariant
            2 <= radix <= 16,
            length == text@.len(),
            start <= i <= length,
            start <= 1,
            digits.len() == length - start,
            forall|k: int| 0 <= k < digits.len() ==> digits[k] == text@[start + k],
            digits_spec(digits.take(i - start), radix as int) == Some(value as int),
            value <= max,
            number_spec(text@, radix as int, max as int) == match digits_spec(digits, radix as int) {
                Some(all) => if all <= max {
                    Some(all)
                } else {
                    None
                },
                None => None,
            },
        decreases length - i,
    {
        let ghost front = digits.take(i - start + 1);
        proof {
            assert(front.drop_last() =~= digits.take(i - start));
            assert(front.last() == text@[i as int]);
            lemma_digits_grow(digits, radix as int, i - start + 1);
        }
        let low: u32 = match digit(text.get_char(i), radix) {
            Some(low) => low,
            None => {
                return None;
            },
        };
        assert(value * radix <= u64::MAX * 16) by (nonlinear_arith)
            requires
                0 <= value <= u64::MAX,
                0 <= radix <= 16,
        ;
        let next: u128 = value as u128 * radix as u128 + low as u128;
        if next > max as u128 {
            return None;
        }
        value = next as u64;
        i += 1;
    }
    assert(digits.take(length - start) =~= digits);
    Some(value)
}

/// The decimal digits of a number, without leading zeros.
pub open spec fn decimal_spec(value: int) -> Seq<char>
    decreases value,
{
    if value < 10 {
        seq![('0' as int + value) as char]
    } else {
        decimal_spec(value / 10) + seq![('0' as int + value % 10) as char]
    }
}

fn digit_text(value: u32) -> (text: &'static str)
    requires
        value < 10,
    ensures
        text@ == seq![('0' as int + value) as char],
{
    proof {
        reveal_strlit("0");
        reveal_strlit("1");
        reveal_strlit("2");
        reveal_strlit("3");
        reveal_strlit("4");
        reveal_strlit("5");
        reveal_strlit("6");
        reveal_strlit("7");
        reveal_strlit("8");
        reveal_strlit("9");
    }
    let text = match value {
        0 => "0",
        1 => "1",
        2 => "2",
        3 => "3",
        4 => "4",
        5 => "5",
        6 => "6",
        7 => "7",
        8 => "8",
        _ => "9",
    };
    assert(text@ =~= seq![('0' as int + value) as char]);
    text
}

/// Writes a number in decimal.
pub fn decimal(value: u32) -> (text: String)
    ensures
        text@ == decimal_spec(value as int),
    decreases value,
{
    if value < 10 {
        digit_text(value).to_owned()
    } else {
        let mut text = decimal(value / 10);
        text.append(digit_text(value % 10));
        text
    }
}

/// Parts with a separator between each two of them.
pub open spec fn joined_with(parts: Seq<Seq<char>>, separator: char) -> Seq<char>
    decreases parts.len(),
{
    if parts.len() == 0 {
        Seq::empty()
    } else if parts.len() == 1 {
        parts[0]
    } else {
        parts[0] + seq![separator] + joined_with(parts.skip(1), separator)
    }
}

/// The parts of a text, with the separator between each two of them, are the text, and no part has
/// a separator in it.
pub proof fn split_rejoins(text: Seq<char>, separator: char)
    ensures
        split_spec(text, separator).len() > 0,
        joined_with(split_spec(text, separator), separator) == text,
        forall|i: int|
            0 <= i < split_spec(text, separator).len() ==> !(#[trigger] split_spec(
                text,
                separator,
            )[i]).contains(separator),
    decreases text.len(),
{
    text.index_of_first_ensures(separator);
    let parts = split_spec(text, separator);
    if let Some(i) = text.index_of_first(separator) {
        let rest = text.skip(i + 1);
        split_rejoins(rest, separator);
        assert(parts.skip(1) =~= split_spec(rest, separator));
        assert(text =~= text.take(i) + seq![separator] + rest);
        assert forall|k: int| 0 <= k < parts.len() implies !(#[trigger] parts[k]).contains(
            separator,
        ) by {
            if k > 0 {
                assert(parts[k] == split_spec(rest, separator)[k - 1]);
            }
        }
    }
}

/// Any parts without a separator in them come back when they are joined and split again.
pub proof fn split_of_joined(parts: Seq<Seq<char>>, separator: char)
    requires
        parts.len() > 0,
        forall|i: int| 0 <= i < parts.len() ==> !(#[trigger] parts[i]).contains(separator),
    ensures
        split_spec(joined_with(parts, separator), separator) == parts,
    decreases parts.len(),
{
    let text = joined_with(parts, separator);
    let first = parts[0];
    if parts.len() == 1 {
        lemma_split_end(text, separator);
        assert(parts =~= seq![first]);
    } else {
        let rest = parts.skip(1);
        assert forall|i: int| 0 <= i < rest.len() implies !(#[trigger] rest[i]).contains(
            separator,
        ) by {
            assert(rest[i] == parts[i + 1]);
        }
        split_of_joined(rest, separator);
        let i = first.len() as int;
        assert forall|k: int| 0 <= k < i implies text[k] != separator by {
            assert(text[k] == first[k]);
        }
        lemma_split_at(text, separator, i);
        assert(text.take(i) =~= first);
        assert(text.skip(i + 1) =~= joined_with(rest, separator));
        assert(parts =~= seq![first] + rest);
    }
}

/// A text starts with another if that and something more make it up, and ends with another if
/// something and that do.
pub proof fn affixes(text: Seq<char>, part: Seq<char>, other: Seq<char>)
    ensures
        has_prefix(part + other, part),
        has_suffix(other + part, part),
        has_prefix(text, part) ==> text == part + text.skip(part.len() as int),
        has_suffix(text, part) ==> text == text.take(text.len() - part.len()) + part,
{
    assert((part + other).take(part.len() as int) =~= part);
    assert((other + part).skip((other + part).len() - part.len()) =~= part);
    if has_prefix(text, part) {
        assert(text =~= part + text.skip(part.len() as int));
    }
    if has_suffix(text, part) {
        assert(text =~= text.take(text.len() - part.len()) + part);
    }
}

/// The characters that are white space.
pub proof fn white_space(c: char)
    ensures
        is_white(c) <==> {
            ||| c == '\t' || c == '\n' || c == '\u{b}' || c == '\u{c}' || c == '\r' || c == ' '
            ||| c == '\u{85}' || c == '\u{a0}' || c == '\u{1680}'
            ||| c == '\u{2000}' || c == '\u{2001}' || c == '\u{2002}' || c == '\u{2003}'
            ||| c == '\u{2004}' || c == '\u{2005}' || c == '\u{2006}' || c == '\u{2007}'
            ||| c == '\u{2008}' || c == '\u{2009}' || c == '\u{200a}'
            ||| c == '\u{2028}' || c == '\u{2029}' || c == '\u{202f}' || c == '\u{205f}'
            ||| c == '\u{3000}'
        },
{
}

proof fn lemma_last_word(text: Seq<char>)
    ensures
        ends_in_word(text) ==> words_spec(text).len() > 0,
    decreases text.len(),
{
    if text.len() > 0 {
        lemma_last_word(text.drop_last());
    }
}

/// A text without white space is one word, and a text without characters has none.
pub proof fn single_words(word: Seq<char>)
    requires
        forall|i: int| 0 <= i < word.len() ==> !is_white(#[trigger] word[i]),
    ensures
        word.len() > 0 ==> words_spec(word) == seq![word],
        word.len() == 0 ==> words_spec(word).len() == 0,
    decreases word.len(),
{
    if word.len() > 0 {
        let front = word.drop_last();
        assert forall|i: int| 0 <= i < front.len() implies !is_white(#[trigger] front[i]) by {
            assert(front[i] == word[i]);
        }
        single_words(front);
        assert(!is_white(word[word.len() - 1]));
        if front.len() > 0 {
            assert(!is_white(front[front.len() - 1]));
            assert(front.push(word.last()) =~= word);
            assert(seq![front].drop_last().push(word) =~= seq![word]);
        } else {
            assert(seq![word.last()] =~= word);
            assert(words_spec(front).push(word) =~= seq![word]);
        }
    }
}

/// White space parts the words on its left from those on its right.
pub proof fn words_apart(left: Seq<char>, gap: char, right: Seq<char>)
    requires
        is_white(gap),
    ensures
        words_spec(left + seq![gap] + right) == words_spec(left) + words_spec(right),
    decreases right.len(),
{
    let text = left + seq![gap] + right;
    if right.len() == 0 {
        assert(text.drop_last() =~= left);
        assert(words_spec(left) + words_spec(right) =~= words_spec(left));
    } else {
        let front = right.drop_last();
        words_apart(left, gap, front);
        lemma_last_word(front);
        assert(text.drop_last() =~= left + seq![gap] + front);
        let so_far = words_spec(left) + words_spec(front);
        if !is_white(right.last()) {
            if ends_in_word(front) {
                let last = words_spec(front).last().push(right.last());
                assert(so_far.drop_last().push(last) =~= words_spec(left) + words_spec(
                    front,
                ).drop_last().push(last));
            } else {
                assert(so_far.push(seq![right.last()]) =~= words_spec(left) + words_spec(
                    front,
                ).push(seq![right.last()]));
            }
        }
    }
}

/// What each character is as a digit: 0 to 9 stand for themselves, and a to f, large or small, for
/// 10 to 15, as far as the radix goes.
pub proof fn digit_values(digit: char, radix: int)
    requires
        2 <= radix <= 16,
    ensures
        ({
            let code = digit as int;
            let value = digit_spec(digit, radix);
            &&& 48 <= code <= 57 && code - 48 < radix ==> value == Some(code - 48)
            &&& 65 <= code <= 70 && code - 55 < radix ==> value == Some(code - 55)
            &&& 97 <= code <= 102 && code - 87 < radix ==> value == Some(code - 87)
            &&& value is Some ==> {
                ||| 48 <= code <= 57 && code - 48 < radix
                ||| 65 <= code <= 70 && code - 55 < radix
                ||| 97 <= code <= 102 && code - 87 < radix
            }
        }),
{
}

/// What digits are worth, each by its place.
pub open spec fn worth(digits: Seq<char>, radix: int) -> int
    decreases digits.len(),
{
    if digits.len() == 0 {
        0
    } else {
        digit_spec(digits[0], radix)->0 * pow(radix, (digits.len() - 1) as nat) + worth(
            digits.skip(1),
            radix,
        )
    }
}

proof fn lemma_worth(digits: Seq<char>, radix: int)
    requires
        digits.len() > 0,
    ensures
        worth(digits, radix) == worth(digits.drop_last(), radix) * radix + digit_spec(
            digits.last(),
            radix,
        )->0,
    decreases digits.len(),
{
    let front = digits.drop_last();
    let first = digit_spec(digits[0], radix)->0;
    let last = digit_spec(digits.last(), radix)->0;
    reveal(pow);
    if digits.len() == 1 {
        assert(pow(radix, 0) == 1);
        assert(first * 1 == first);
        assert(worth(digits.skip(1), radix) == 0);
        assert(worth(front, radix) * radix == 0) by (nonlinear_arith)
            requires
                worth(front, radix) == 0,
        ;
    } else {
        let rest = digits.skip(1);
        lemma_worth(rest, radix);
        assert(rest.drop_last() =~= front.skip(1));
        let high = pow(radix, (digits.len() - 2) as nat);
        let middle = worth(front.skip(1), radix);
        assert(pow(radix, (digits.len() - 1) as nat) == radix * high);
        assert(first * (radix * high) + (middle * radix + last) == (first * high + middle) * radix
            + last) by (nonlinear_arith);
    }
}

/// Digits stand for what they are worth by their places, and anything else among them stands for
/// nothing.
pub proof fn lemma_digits(digits: Seq<char>, radix: int)
    ensures
        digits_spec(digits, radix) is Some <==> forall|i: int|
            0 <= i < digits.len() ==> digit_spec(#[trigger] digits[i], radix) is Some,
        digits_spec(digits, radix) is Some ==> digits_spec(digits, radix) == Some(
            worth(digits, radix),
        ),
    decreases digits.len(),
{
    if digits.len() > 0 {
        let front = digits.drop_last();
        lemma_digits(front, radix);
        lemma_worth(digits, radix);
        if digits_spec(digits, radix) is Some {
            assert forall|i: int| 0 <= i < digits.len() implies digit_spec(
                #[trigger] digits[i],
                radix,
            ) is Some by {
                if i < front.len() {
                    assert(front[i] == digits[i]);
                }
            }
        }
        if forall|i: int|
            0 <= i < digits.len() ==> digit_spec(#[trigger] digits[i], radix) is Some {
            assert forall|i: int| 0 <= i < front.len() implies digit_spec(
                #[trigger] front[i],
                radix,
            ) is Some by {
                assert(front[i] == digits[i]);
            }
            assert(digit_spec(digits[digits.len() - 1], radix) is Some);
        }
    }
}

/// A text without the plus sign that it may start with.
pub open spec fn behind_plus(text: Seq<char>) -> Seq<char> {
    if text.len() > 0 && text[0] == '+' {
        text.subrange(1, text.len() as int)
    } else {
        text
    }
}

/// A text stands for a number exactly if it is one or more digits, behind at most one plus sign,
/// and what they are worth is no more than allowed; that is then the number.
pub proof fn numbers_read(text: Seq<char>, radix: int, max: int)
    ensures
        ({
            let digits = behind_plus(text);
            &&& number_spec(text, radix, max) is Some <==> {
                &&& digits.len() > 0
                &&& forall|i: int|
                    0 <= i < digits.len() ==> digit_spec(#[trigger] digits[i], radix) is Some
                &&& worth(digits, radix) <= max
            }
            &&& number_spec(text, radix, max) is Some ==> number_spec(text, radix, max) == Some(
                worth(digits, radix),
            )
        }),
{
    let digits = behind_plus(text);
    assert(text.len() > 0 ==> text.skip(1) =~= text.subrange(1, text.len() as int));
    lemma_digits(digits, radix);
}

proof fn lemma_decimal_digits(value: int)
    requires
        value >= 0,
    ensures
        decimal_spec(value).len() > 0,
        digits_spec(decimal_spec(value), 10) == Some(value),
        value > 0 ==> decimal_spec(value)[0] != '0',
        decimal_spec(value)[0] != '+',
        value == 0 ==> decimal_spec(value) == seq!['0'],
    decreases value,
{
    let text = decimal_spec(value);
    let low = ('0' as int + value % 10) as char;
    assert(digit_spec(low, 10) == Some(value % 10));
    if value < 10 {
        assert(text =~= Seq::empty().push(low));
        assert(text.drop_last() =~= Seq::<char>::empty());
        assert(digits_spec(text.drop_last(), 10) == Some(0int));
        assert(low != '+');
    } else {
        lemma_decimal_digits(value / 10);
        let front = decimal_spec(value / 10);
        assert(text.drop_last() =~= front);
        assert(text.last() == low);
        assert(text[0] == front[0]);
    }
}

/// A number in decimal reads back as that number, and starts with no zero unless it is zero.
pub proof fn decimal_reads_back(value: int, max: int)
    requires
        0 <= value <= max,
    ensures
        number_spec(decimal_spec(value), 10, max) == Some(value),
        value > 0 ==> decimal_spec(value)[0] != '0',
        value == 0 ==> decimal_spec(value) == seq!['0'],
        forall|i: int|
            0 <= i < decimal_spec(value).len() ==> '0' <= #[trigger] decimal_spec(value)[i]
                && decimal_spec(value)[i] <= '9',
{
    lemma_decimal_digits(value);
    let text = decimal_spec(value);
    lemma_digits(text, 10);
    assert forall|i: int| 0 <= i < text.len() implies '0' <= #[trigger] text[i] && text[i]
        <= '9' by {
        assert(digit_spec(text[i], 10) is Some);
    }
}

/// What digits stand for is never negative.
pub proof fn numbers_not_negative(text: Seq<char>, radix: int, max: int)
    requires
        radix >= 2,
    ensures
        number_spec(text, radix, max) matches Some(value) ==> 0 <= value <= max,
{
    lemma_digits_grow(behind_plus(text), radix, 0);
    assert(text.len() > 0 ==> text.skip(1) =~= text.subrange(1, text.len() as int));
}

/// Texts stand for themselves, one by one.
pub proof fn texts_one_by_one(parts: Seq<&str>, all: Seq<String>)
    ensures
        texts(parts).len() == parts.len(),
        forall|i: int| 0 <= i < parts.len() ==> #[trigger] texts(parts)[i] == parts[i]@,
        strings(all).len() == all.len(),
        forall|i: int| 0 <= i < all.len() ==> #[trigger] strings(all)[i] == all[i]@,
{
}

} // verus!
