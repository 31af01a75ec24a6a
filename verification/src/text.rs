//! Text as sequences of characters: numbers in decimal and hexadecimal, UTF-8, and the few
//! string operations that the rest of the library is built on.

use vstd::prelude::*;
use vstd::utf8;

verus! {

/// `String::push` appends the character.
pub assume_specification[ String::push ](s: &mut String, c: char)
    ensures
        final(s)@ == old(s)@.push(c),
;

/// `String::from_utf8` succeeds exactly on valid UTF-8, with the characters that it encodes.
#[verifier::external_body]
pub(crate) fn from_utf8(bytes: Vec<u8>) -> (text: Option<String>)
    ensures
        text is Some <==> utf8::valid_utf8(bytes@),
        text matches Some(decoded) ==> decoded@ == utf8::decode_utf8(bytes@),
{
    String::from_utf8(bytes).ok()
}

/// The characters that `String::from_utf8_lossy` finds in bytes.
pub uninterp spec fn lossy(bytes: Seq<u8>) -> Seq<char>;

/// `String::from_utf8_lossy` is a function of the bytes alone, and exact on valid UTF-8.
#[verifier::external_body]
pub(crate) fn from_utf8_lossy(bytes: &[u8]) -> (text: String)
    ensures
        text@ == lossy(bytes@),
        utf8::valid_utf8(bytes@) ==> text@ == utf8::decode_utf8(bytes@),
{
    String::from_utf8_lossy(bytes).into_owned()
}

/// The character of a decimal or hexadecimal digit.
pub open spec fn digit(value: nat) -> char {
    if value < 10 {
        (48 + value) as char
    } else {
        (87 + value) as char
    }
}

/// `value` in decimal, without leading zeros.
pub open spec fn decimal(value: nat) -> Seq<char>
    decreases value,
{
    if value < 10 {
        seq![digit(value)]
    } else {
        decimal(value / 10).push(digit(value % 10))
    }
}

/// The `width` lowest digits of `value` in base `base`, most significant first.
pub open spec fn fixed_width(value: nat, base: nat, width: nat) -> Seq<char>
    decreases width,
{
    if width == 0 {
        Seq::empty()
    } else {
        fixed_width(value / base, base, (width - 1) as nat).push(digit(value % base))
    }
}

pub open spec fn is_digit(c: char) -> bool {
    '0' <= c <= '9'
}

pub open spec fn all_digits(digits: Seq<char>) -> bool {
    forall|i: int| 0 <= i < digits.len() ==> is_digit(#[trigger] digits[i])
}

/// The number that a sequence of decimal digits spells.
pub open spec fn digits_value(digits: Seq<char>) -> nat
    decreases digits.len(),
{
    if digits.len() == 0 {
        0
    } else {
        (digits_value(digits.drop_last()) * 10 + (digits.last() as int - 48)) as nat
    }
}

/// The digits of a number as it may be written: one leading plus sign is dropped.
pub open spec fn without_plus(text: Seq<char>) -> Seq<char> {
    if text.len() > 0 && text[0] == '+' {
        text.skip(1)
    } else {
        text
    }
}

/// The number that `text` spells in decimal, where it spells one of at most `limit`.
pub open spec fn parsed(text: Seq<char>, limit: nat) -> Option<nat> {
    let digits = without_plus(text);
    if digits.len() > 0 && all_digits(digits) && digits_value(digits) <= limit {
        Some(digits_value(digits))
    } else {
        None
    }
}

pub proof fn lemma_decimal(value: nat)
    ensures
        decimal(value).len() > 0,
        forall|i: int| 0 <= i < decimal(value).len() ==> is_digit(#[trigger] decimal(value)[i]),
        digits_value(decimal(value)) == value,
    decreases value,
{
    if value < 10 {
        let one = seq![digit(value)];
        assert(one.drop_last() =~= Seq::<char>::empty());
        assert(digits_value(one.drop_last()) == 0);
        assert(decimal(value) == one);
    } else {
        lemma_decimal(value / 10);
        assert(decimal(value).drop_last() =~= decimal(value / 10));
    }
}

/// Parsing the decimal form of a number gives the number back.
pub proof fn lemma_decimal_parses(value: nat, limit: nat)
    requires
        value <= limit,
    ensures
        parsed(decimal(value), limit) == Some(value),
{
    lemma_decimal(value);
    assert(is_digit(decimal(value)[0]));
}

/// Two numbers with the same decimal form are equal.
pub proof fn lemma_decimal_injective(a: nat, b: nat)
    requires
        decimal(a) == decimal(b),
    ensures
        a == b,
{
    lemma_decimal(a);
    lemma_decimal(b);
}

/// Ten to the power `width`.
pub open spec fn ten_to(width: nat) -> nat
    decreases width,
{
    if width == 0 {
        1
    } else {
        10 * ten_to((width - 1) as nat)
    }
}

/// A number of few enough digits, written with leading zeros, is read back.
pub proof fn lemma_fixed_width(value: nat, width: nat)
    requires
        value < ten_to(width),
    ensures
        fixed_width(value, 10, width).len() == width,
        all_digits(fixed_width(value, 10, width)),
        digits_value(fixed_width(value, 10, width)) == value,
    decreases width,
{
    if width > 0 {
        let front = fixed_width(value / 10, 10, (width - 1) as nat);
        lemma_fixed_width(value / 10, (width - 1) as nat);
        assert(fixed_width(value, 10, width).drop_last() =~= front);
        assert forall|i: int| 0 <= i < width implies is_digit(
            #[trigger] fixed_width(value, 10, width)[i],
        ) by {
            if i < width - 1 {
                assert(is_digit(front[i]));
            }
        }
    }
}

fn digit_char(value: u8) -> (c: char)
    requires
        value < 16,
    ensures
        c == digit(value as nat),
{
    if value < 10 {
        (48 + value) as char
    } else {
        (87 + value) as char
    }
}

/// Appends `value` in decimal.
pub fn push_decimal(out: &mut String, value: u64)
    ensures
        final(out)@ == old(out)@ + decimal(value as nat),
    decreases value,
{
    if value >= 10 {
        push_decimal(out, value / 10);
    }
    out.push(digit_char((value % 10) as u8));
    proof {
        assert(out@ =~= old(out)@ + decimal(value as nat));
    }
}

/// `value` in decimal.
pub fn decimal_text(value: u64) -> (text: String)
    ensures
        text@ == decimal(value as nat),
{
    let mut out = String::new();
    push_decimal(&mut out, value);
    assert(out@ =~= decimal(value as nat));
    out
}

/// Appends the `width` lowest digits of `value` in base `base`.
pub fn push_fixed_width(out: &mut String, value: u64, base: u64, width: u64)
    requires
        2 <= base <= 16,
    ensures
        final(out)@ == old(out)@ + fixed_width(value as nat, base as nat, width as nat),
    decreases width,
{
    if width > 0 {
        push_fixed_width(out, value / base, base, width - 1);
        out.push(digit_char((value % base) as u8));
    }
    proof {
        assert(out@ =~= old(out)@ + fixed_width(value as nat, base as nat, width as nat));
    }
}

/// The characters of a string.
pub fn chars_of(text: &str) -> (chars: Vec<char>)
    ensures
        chars@ == text@,
{
    let mut chars: Vec<char> = Vec::new();
    for c in iter: text.chars()
        invariant
            chars@ == iter.seq().take(iter.index()),
            iter.seq() == text@,
    {
        chars.push(c);
    }
    chars
}

/// The string of some characters.
pub fn string_of(chars: &[char]) -> (text: String)
    ensures
        text@ == chars@,
{
    let mut text = String::new();
    for i in 0..chars.len()
        invariant
            text@ == chars@.take(i as int),
    {
        text.push(chars[i]);
        assert(text@ =~= chars@.take(i + 1));
    }
    assert(chars@.take(chars@.len() as int) =~= chars@);
    text
}

/// More digits never make a number smaller.
proof fn lemma_prefix_value(digits: Seq<char>, count: int)
    requires
        all_digits(digits),
        0 <= count <= digits.len(),
    ensures
        digits_value(digits.take(count)) <= digits_value(digits),
    decreases digits.len(),
{
    if count < digits.len() {
        assert(digits.drop_last().take(count) =~= digits.take(count));
        lemma_prefix_value(digits.drop_last(), count);
        assert(is_digit(digits.last()));
    } else {
        assert(digits.take(count) =~= digits);
    }
}

/// The number that `text` spells in decimal, where it spells one of at most `limit`. One leading
/// plus sign is allowed.
pub fn parse_decimal(text: &str, limit: u64) -> (value: Option<u64>)
    ensures
        match parsed(text@, limit as nat) {
            Some(number) => value == Some(number as u64) && number <= limit,
            None => value is None,
        },
{
    let chars = chars_of(text);
    let start: usize = if chars.len() > 0 && chars[0] == '+' {
        1
    } else {
        0
    };
    let ghost digits = without_plus(text@);
    assert(digits =~= chars@.skip(start as int));
    if start == chars.len() {
        return None;
    }
    let mut value: u64 = 0;
    let mut i: usize = start;
    while i < chars.len()
        invariant
            start <= i <= chars@.len(),
            start < chars@.len(),
            digits == chars@.skip(start as int),
            digits == without_plus(text@),
            all_digits(digits.take(i - start)),
            value == digits_value(digits.take(i - start)),
            value <= limit,
        decreases chars@.len() - i,
    {
        let c: char = chars[i];
        let ghost k = i - start;
        proof {
            assert(digits[k] == c);
            assert(digits.take(k + 1).drop_last() =~= digits.take(k));
            assert(digits.take(k + 1).last() == c);
        }
        if !('0' <= c && c <= '9') {
            assert(!is_digit(digits[k]));
            return None;
        }
        let digit: u64 = (c as u32 - 48) as u64;
        proof {
            assert forall|j: int| 0 <= j < k + 1 implies is_digit(#[trigger] digits.take(k + 1)[j]) by {
                if j < k {
                    assert(is_digit(digits.take(k)[j]));
                }
            }
            assert(digits_value(digits.take(k + 1)) == value * 10 + digit);
        }
        if digit > limit || value > (limit - digit) / 10 {
            proof {
                if all_digits(digits) {
                    lemma_prefix_value(digits, k + 1);
                }
            }
            return None;
        }
        value = value * 10 + digit;
        i = i + 1;
    }
    assert(digits.take(i - start) =~= digits);
    Some(value)
}

/// Whether two strings are equal.
pub fn same(a: &str, b: &str) -> (equal: bool)
    ensures
        equal == (a@ == b@),
{
    a.to_owned() == b.to_owned()
}

/// `text` with `suffix` behind it.
pub fn joined(text: &str, suffix: &str) -> (whole: String)
    ensures
        whole@ == text@ + suffix@,
{
    let mut whole = text.to_owned();
    whole.append(suffix);
    whole
}

/// An ASCII letter or digit, or one of `.`, `_` and `-`.
pub open spec fn is_name_char(c: char) -> bool {
    'a' <= c <= 'z' || 'A' <= c <= 'Z' || '0' <= c <= '9' || c == '.' || c == '_' || c == '-'
}

/// A name that can stand for a file or a directory: not empty, and made of name characters.
pub open spec fn is_name(text: Seq<char>) -> bool {
    text.len() > 0 && forall|i: int| 0 <= i < text.len() ==> is_name_char(#[trigger] text[i])
}

pub fn check_name(text: &str) -> (valid: bool)
    ensures
        valid == is_name(text@),
{
    let chars = chars_of(text);
    let mut i: usize = 0;
    while i < chars.len()
        invariant
            i <= chars@.len(),
            chars@ == text@,
            forall|j: int| 0 <= j < i ==> is_name_char(#[trigger] chars@[j]),
        decreases chars@.len() - i,
    {
        let c: char = chars[i];
        if !(('a' <= c && c <= 'z') || ('A' <= c && c <= 'Z') || ('0' <= c && c <= '9') || c == '.'
            || c == '_' || c == '-') {
            assert(!is_name_char(text@[i as int]));
            return false;
        }
        i = i + 1;
    }
    chars.len() > 0
}

/// A character of Unicode's `White_Space` property.
pub open spec fn is_space(c: char) -> bool {
    let code = c as u32;
    9 <= code <= 13 || code == 0x20 || code == 0x85 || code == 0xa0 || code == 0x1680 || 0x2000
        <= code <= 0x200a || code == 0x2028 || code == 0x2029 || code == 0x202f || code == 0x205f
        || code == 0x3000
}

pub open spec fn trimmed_start(text: Seq<char>) -> Seq<char>
    decreases text.len(),
{
    if text.len() > 0 && is_space(text[0]) {
        trimmed_start(text.skip(1))
    } else {
        text
    }
}

pub open spec fn trimmed_end(text: Seq<char>) -> Seq<char>
    decreases text.len(),
{
    if text.len() > 0 && is_space(text.last()) {
        trimmed_end(text.drop_last())
    } else {
        text
    }
}

/// `text` without the white space at its ends.
pub open spec fn trimmed(text: Seq<char>) -> Seq<char> {
    trimmed_end(trimmed_start(text))
}

fn space_char(c: char) -> (space: bool)
    ensures
        space == is_space(c),
{
    let code: u32 = c as u32;
    (9 <= code && code <= 13) || code == 0x20 || code == 0x85 || code == 0xa0 || code == 0x1680 || (
    0x2000 <= code && code <= 0x200a) || code == 0x2028 || code == 0x2029 || code == 0x202f || code
        == 0x205f || code == 0x3000
}

/// `text` without the white space at its ends.
pub fn trim(text: &str) -> (inner: String)
    ensures
        inner@ == trimmed(text@),
{
    let chars = chars_of(text);
    let mut start: usize = 0;
    assert(chars@.skip(0) =~= chars@);
    while start < chars.len() && space_char(chars[start])
        invariant
            start <= chars@.len(),
            trimmed_start(chars@) == trimmed_start(chars@.skip(start as int)),
        decreases chars@.len() - start,
    {
        assert(chars@.skip(start as int).skip(1) =~= chars@.skip(start + 1));
        start = start + 1;
    }
    let ghost rest = chars@.skip(start as int);
    assert(trimmed_start(chars@) == rest);
    let mut end: usize = chars.len();
    assert(chars@.subrange(start as int, end as int) =~= rest);
    while end > start && space_char(chars[end - 1])
        invariant
            start <= end <= chars@.len(),
            trimmed_end(rest) == trimmed_end(chars@.subrange(start as int, end as int)),
        decreases end,
    {
        assert(chars@.subrange(start as int, end as int).drop_last() =~= chars@.subrange(
            start as int,
            end - 1,
        ));
        assert(chars@.subrange(start as int, end as int).last() == chars@[end - 1]);
        end = end - 1;
    }
    proof {
        let inner = chars@.subrange(start as int, end as int);
        if end > start {
            assert(inner.last() == chars@[end - 1]);
        }
        assert(trimmed_end(inner) == inner);
    }
    string_of(vstd::slice::slice_subrange(chars.as_slice(), start, end))
}

/// A number on a line of its own is read back from the line.
pub proof fn lemma_line_parses(value: nat, limit: nat)
    requires
        value <= limit,
    ensures
        parsed(trimmed(decimal(value) + "\n"@), limit) == Some(value),
{
    reveal_strlit("\n");
    let digits = decimal(value);
    let line = digits + "\n"@;
    lemma_decimal(value);
    lemma_decimal_parses(value, limit);
    assert(is_digit(digits[0]));
    assert(line[0] == digits[0]);
    assert(trimmed_start(line) == line);
    assert(line.last() == "\n"@[0]);
    assert(line.drop_last() =~= digits);
    assert(is_digit(digits.last()));
    assert(trimmed_end(digits) == digits);
    assert(trimmed_end(line) == digits);
}

/// Several strings as sequences of characters.
pub open spec fn views(texts: Seq<String>) -> Seq<Seq<char>> {
    texts.map_values(|text: String| text@)
}

/// The place of the first `c`, or the length of the text where there is none.
pub open spec fn first_index(text: Seq<char>, c: char) -> int
    decreases text.len(),
{
    if text.len() == 0 || text[0] == c {
        0
    } else {
        1 + first_index(text.skip(1), c)
    }
}

/// The pieces of `text` between the occurrences of `c`.
pub open spec fn split_on(text: Seq<char>, c: char) -> Seq<Seq<char>>
    decreases text.len(),
{
    let at = first_index(text, c);
    if 0 <= at < text.len() {
        seq![text.take(at)] + split_on(text.skip(at + 1), c)
    } else {
        seq![text]
    }
}

/// `line` without a carriage return at its end.
pub open spec fn without_return(line: Seq<char>) -> Seq<char> {
    if line.len() > 0 && line.last() == '\r' {
        line.drop_last()
    } else {
        line
    }
}

/// The lines of `text`. A line ends with a line feed, or a carriage return and a line feed; the
/// last line may lack its end.
pub open spec fn lines(text: Seq<char>) -> Seq<Seq<char>>
    decreases text.len(),
{
    let at = first_index(text, '\n');
    if text.len() == 0 {
        Seq::empty()
    } else if 0 <= at < text.len() {
        seq![without_return(text.take(at))] + lines(text.skip(at + 1))
    } else {
        seq![text]
    }
}

/// Whether `c` does not occur in `text`.
pub open spec fn lacks(text: Seq<char>, c: char) -> bool {
    forall|i: int| 0 <= i < text.len() ==> #[trigger] text[i] != c
}

pub proof fn lemma_first_index(front: Seq<char>, c: char, rest: Seq<char>)
    requires
        lacks(front, c),
    ensures
        first_index(front.push(c) + rest, c) == front.len(),
        (front.push(c) + rest).take(front.len() as int) == front,
        (front.push(c) + rest).skip(front.len() as int + 1) == rest,
    decreases front.len(),
{
    let whole = front.push(c) + rest;
    assert(whole.take(front.len() as int) =~= front);
    assert(whole.skip(front.len() as int + 1) =~= rest);
    if front.len() > 0 {
        let less = front.skip(1);
        assert forall|i: int| 0 <= i < less.len() implies #[trigger] less[i] != c by {
            assert(less[i] == front[i + 1]);
        }
        lemma_first_index(less, c, rest);
        assert(whole.skip(1) =~= less.push(c) + rest);
        assert(whole[0] == front[0]);
    } else {
        assert(whole[0] == c);
    }
}

pub proof fn lemma_no_index(text: Seq<char>, c: char)
    requires
        lacks(text, c),
    ensures
        first_index(text, c) == text.len(),
    decreases text.len(),
{
    if text.len() > 0 {
        let less = text.skip(1);
        assert forall|i: int| 0 <= i < less.len() implies #[trigger] less[i] != c by {
            assert(less[i] == text[i + 1]);
        }
        lemma_no_index(less, c);
    }
}

/// A piece ends where the separator stands.
pub proof fn lemma_split_piece(front: Seq<char>, c: char, rest: Seq<char>)
    requires
        lacks(front, c),
    ensures
        split_on(front.push(c) + rest, c) == seq![front] + split_on(rest, c),
{
    lemma_first_index(front, c, rest);
}

/// A text without the separator is one piece.
pub proof fn lemma_split_whole(text: Seq<char>, c: char)
    requires
        lacks(text, c),
    ensures
        split_on(text, c) == seq![text],
{
    lemma_no_index(text, c);
}

/// The pieces of `text` between the occurrences of `c`.
pub fn split(text: &str, c: char) -> (pieces: Vec<String>)
    ensures
        views(pieces@) == split_on(text@, c),
{
    let chars = chars_of(text);
    let mut pieces: Vec<String> = Vec::new();
    let mut current = String::new();
    let mut i: usize = 0;
    proof {
        assert(current@ + chars@.skip(0) =~= text@);
        assert(views(pieces@) + split_on(text@, c) =~= split_on(text@, c));
    }
    while i < chars.len()
        invariant
            i <= chars@.len(),
            lacks(current@, c),
            split_on(text@, c) == views(pieces@) + split_on(current@ + chars@.skip(i as int), c),
        decreases chars@.len() - i,
    {
        let next: char = chars[i];
        let ghost before = views(pieces@);
        let ghost rest = chars@.skip(i + 1);
        proof {
            assert(current@ + chars@.skip(i as int) =~= current@.push(next) + rest);
        }
        if next == c {
            proof {
                lemma_split_piece(current@, c, rest);
            }
            let ghost piece = current@;
            pieces.push(current);
            current = String::new();
            proof {
                assert(views(pieces@) =~= before.push(piece));
                assert(before + (seq![piece] + split_on(rest, c)) =~= views(pieces@) + split_on(
                    rest,
                    c,
                ));
                assert(current@ + rest =~= rest);
            }
        } else {
            current.push(next);
        }
        i = i + 1;
    }
    proof {
        assert(current@ + chars@.skip(i as int) =~= current@);
        lemma_split_whole(current@, c);
    }
    let ghost before = views(pieces@);
    let ghost piece = current@;
    pieces.push(current);
    assert(views(pieces@) =~= before + seq![piece]);
    pieces
}

/// A line ends at its line feed.
pub proof fn lemma_lines_first(line: Seq<char>, rest: Seq<char>)
    requires
        lacks(line, '\n'),
    ensures
        lines(line.push('\n') + rest) == seq![without_return(line)] + lines(rest),
{
    lemma_first_index(line, '\n', rest);
}

/// The lines of `text`.
pub fn split_lines(text: &str) -> (found: Vec<String>)
    ensures
        views(found@) == lines(text@),
{
    let chars = chars_of(text);
    let mut found: Vec<String> = Vec::new();
    let mut current: Vec<char> = Vec::new();
    let mut i: usize = 0;
    proof {
        assert(current@ + chars@.skip(0) =~= text@);
        assert(views(found@) + lines(text@) =~= lines(text@));
    }
    while i < chars.len()
        invariant
            i <= chars@.len(),
            lacks(current@, '\n'),
            lines(text@) == views(found@) + lines(current@ + chars@.skip(i as int)),
        decreases chars@.len() - i,
    {
        let next: char = chars[i];
        let ghost before = views(found@);
        let ghost rest = chars@.skip(i + 1);
        proof {
            assert(current@ + chars@.skip(i as int) =~= current@.push(next) + rest);
        }
        if next == '\n' {
            proof {
                lemma_lines_first(current@, rest);
            }
            let ghost whole = current@;
            if current.len() > 0 && current[current.len() - 1] == '\r' {
                let _ = current.pop();
            }
            let ghost line = current@;
            found.push(string_of(current.as_slice()));
            current = Vec::new();
            proof {
                assert(line =~= without_return(whole));
                assert(views(found@) =~= before.push(line));
                assert(before + (seq![line] + lines(rest)) =~= views(found@) + lines(rest));
                assert(current@ + rest =~= rest);
            }
        } else {
            current.push(next);
        }
        i = i + 1;
    }
    proof {
        assert(current@ + chars@.skip(i as int) =~= current@);
        lemma_no_index(current@, '\n');
    }
    let ghost before = views(found@);
    if current.len() > 0 {
        let ghost line = current@;
        found.push(string_of(current.as_slice()));
        assert(views(found@) =~= before + seq![line]);
    } else {
        assert(before + Seq::empty() =~= before);
    }
    found
}

/// Whether a text is white space alone.
pub open spec fn is_blank(text: Seq<char>) -> bool {
    forall|i: int| 0 <= i < text.len() ==> is_space(#[trigger] text[i])
}

proof fn lemma_trimmed_start(front: Seq<char>, rest: Seq<char>)
    requires
        is_blank(front),
        rest.len() > 0 ==> !is_space(rest[0]),
    ensures
        trimmed_start(front + rest) == rest,
    decreases front.len(),
{
    let whole = front + rest;
    if front.len() > 0 {
        let less = front.skip(1);
        assert forall|i: int| 0 <= i < less.len() implies is_space(#[trigger] less[i]) by {
            assert(less[i] == front[i + 1]);
        }
        assert(whole[0] == front[0]);
        assert(whole.skip(1) =~= less + rest);
        lemma_trimmed_start(less, rest);
    } else {
        assert(whole =~= rest);
    }
}

proof fn lemma_trimmed_end(rest: Seq<char>, back: Seq<char>)
    requires
        is_blank(back),
        rest.len() > 0 ==> !is_space(rest.last()),
    ensures
        trimmed_end(rest + back) == rest,
    decreases back.len(),
{
    let whole = rest + back;
    if back.len() > 0 {
        let less = back.drop_last();
        assert forall|i: int| 0 <= i < less.len() implies is_space(#[trigger] less[i]) by {
            assert(less[i] == back[i]);
        }
        assert(whole.last() == back.last());
        assert(whole.drop_last() =~= rest + less);
        lemma_trimmed_end(rest, less);
    } else {
        assert(whole =~= rest);
    }
}

/// White space around a text is left out and the text itself stays, with the white space in it; of
/// white space alone nothing stays.
pub proof fn space_around_text_is_left_out(front: Seq<char>, inner: Seq<char>, back: Seq<char>)
    requires
        is_blank(front),
        is_blank(back),
        inner.len() > 0 ==> !is_space(inner[0]) && !is_space(inner.last()),
    ensures
        trimmed(front + inner + back) == inner,
{
    if inner.len() > 0 {
        assert((inner + back)[0] == inner[0]);
        assert(front + inner + back =~= front + (inner + back));
        lemma_trimmed_start(front, inner + back);
        lemma_trimmed_end(inner, back);
    } else {
        let all = front + back;
        assert(front + inner + back =~= all);
        assert(is_blank(all));
        assert(all =~= all + Seq::empty());
        lemma_trimmed_start(all, Seq::empty());
        assert(trimmed_end(Seq::<char>::empty()) == Seq::<char>::empty());
        assert(inner =~= Seq::empty());
    }
}

/// Blanks, tabs and line ends are white space, and what names and numbers are made of is not.
pub proof fn names_have_no_space(c: char)
    ensures
        is_space(' ') && is_space('\t') && is_space('\n') && is_space('\r'),
        is_name_char(c) ==> !is_space(c),
        is_digit(c) ==> is_name_char(c),
{
}

/// Texts with a separator between them.
pub open spec fn with_between(pieces: Seq<Seq<char>>, c: char) -> Seq<char>
    decreases pieces.len(),
{
    if pieces.len() == 0 {
        Seq::empty()
    } else if pieces.len() == 1 {
        pieces[0]
    } else {
        pieces[0].push(c) + with_between(pieces.skip(1), c)
    }
}

proof fn lemma_index_bounded(text: Seq<char>, c: char)
    ensures
        0 <= first_index(text, c) <= text.len(),
        first_index(text, c) < text.len() ==> text[first_index(text, c)] == c,
        lacks(text.take(first_index(text, c)), c),
    decreases text.len(),
{
    if text.len() > 0 && text[0] != c {
        let rest = text.skip(1);
        lemma_index_bounded(rest, c);
        let at = first_index(rest, c);
        let front = text.take(at + 1);
        assert forall|i: int| 0 <= i < front.len() implies #[trigger] front[i] != c by {
            if i > 0 {
                assert(front[i] == rest.take(at)[i - 1]);
            }
        }
    }
}

/// The pieces of a text make up the text with the separators between them, and no piece holds a
/// separator.
pub proof fn pieces_make_up_text(text: Seq<char>, c: char, place: int)
    ensures
        with_between(split_on(text, c), c) == text,
        split_on(text, c).len() > 0,
        0 <= place < split_on(text, c).len() ==> lacks(split_on(text, c)[place], c),
    decreases text.len(),
{
    lemma_index_bounded(text, c);
    let at = first_index(text, c);
    let pieces = split_on(text, c);
    if at < text.len() {
        let rest = text.skip(at + 1);
        pieces_make_up_text(rest, c, place - 1);
        assert(pieces.skip(1) =~= split_on(rest, c));
        assert(pieces[0] == text.take(at));
        assert(text =~= text.take(at).push(c) + rest);
        if 0 < place < pieces.len() {
            assert(pieces[place] == split_on(rest, c)[place - 1]);
        }
    } else {
        assert(text.take(at) =~= text);
        assert(with_between(pieces, c) == text);
    }
}

/// A number above the limit is not read, and neither is a text without digits or with others in
/// it.
pub proof fn only_numbers_are_read(text: Seq<char>, value: nat, limit: nat, place: int)
    ensures
        value > limit ==> parsed(decimal(value), limit) is None,
        text.len() == 0 ==> parsed(text, limit) is None,
        0 < place < text.len() && !is_digit(text[place]) ==> parsed(text, limit) is None,
        text.len() > 0 && !is_digit(text[0]) && text[0] != '+' ==> parsed(text, limit) is None,
{
    lemma_decimal(value);
    let digits = decimal(value);
    assert(is_digit(digits[0]));
    assert(without_plus(digits) == digits);
    if 0 < place < text.len() && !is_digit(text[place]) {
        let rest = without_plus(text);
        if rest == text {
            assert(!all_digits(rest));
        } else {
            assert(rest[place - 1] == text[place]);
            assert(!all_digits(rest));
        }
    }
}

/// A piece behind the last separator is the last one.
pub proof fn lemma_split_last(text: Seq<char>, c: char, last: Seq<char>)
    requires
        lacks(last, c),
    ensures
        split_on(text.push(c) + last, c) == split_on(text, c).push(last),
    decreases text.len(),
{
    lemma_index_bounded(text, c);
    let at = first_index(text, c);
    let front = text.take(at);
    if at < text.len() {
        let rest = text.skip(at + 1);
        lemma_split_last(rest, c, last);
        assert(text =~= front.push(c) + rest);
        lemma_split_piece(front, c, rest);
        assert(text.push(c) + last =~= front.push(c) + (rest.push(c) + last));
        lemma_split_piece(front, c, rest.push(c) + last);
        assert(seq![front] + split_on(rest, c).push(last) =~= (seq![front] + split_on(
            rest,
            c,
        )).push(last));
    } else {
        assert(front =~= text);
        lemma_split_piece(text, c, last);
        lemma_split_whole(text, c);
        lemma_split_whole(last, c);
        assert(seq![text] + seq![last] =~= seq![text].push(last));
    }
}

/// The decimal form of a number holds digits alone.
pub proof fn lemma_decimal_lacks(value: nat, c: char)
    requires
        !is_digit(c),
    ensures
        lacks(decimal(value), c),
{
    lemma_decimal(value);
    assert forall|i: int| 0 <= i < decimal(value).len() implies #[trigger] decimal(value)[i]
        != c by {
        assert(is_digit(decimal(value)[i]));
    }
}

} // verus!
