//! Reading a maze back from a textual log.
//!
//! A log carries the packed maze on lines that hold `Data Ok([` followed by
//! the byte values in decimal, separated by commas. Every other line is
//! passed over. The bits of the bytes are handed out in their order, the
//! least significant bit of each byte first.

use vstd::prelude::*;
use crate::packer::{bits_of, unpack_bits};

verus! {

/// The regular expression that finds the byte values on a line of the log.
/// Its first group holds them.
pub const DATA_PATTERN: &'static str = r" *Data Ok\(\[([0-9 ,]+)";

/// The text that group number `group` of the regular expression `pattern`
/// holds in the leftmost match of `pattern` in `text`. It is `None` where
/// `pattern` is no regular expression, where nothing in `text` matches it and
/// where the group took no part in the match.
pub uninterp spec fn regex_group(pattern: Seq<char>, text: Seq<char>, group: int) -> Option<
    Seq<char>,
>;

/// `regex::Regex::new`, `regex::Regex::captures` and `regex::Captures::get`:
/// compiles `pattern`, searches `text` for its leftmost match and returns
/// what the group `group` holds there. Nothing is claimed of the result but
/// that the three arguments decide it.
#[verifier::external_body]
fn regex_capture(pattern: &str, text: &str, group: usize) -> (found: Option<String>)
    ensures
        found matches Some(held) ==> regex_group(pattern@, text@, group as int) == Some(held@),
        found is None ==> regex_group(pattern@, text@, group as int) is None,
{
    match regex::Regex::new(pattern) {
        Ok(expression) => expression.captures(text).and_then(|groups| groups.get(group)).map(
            |found| found.as_str().to_string(),
        ),
        Err(_) => None,
    }
}

/// `c` is white space: one of the code points that Unicode lists as
/// White_Space.
pub open spec fn white_space(c: char) -> bool {
    let code = c as u32;
    ||| 0x09 <= code <= 0x0d
    ||| code == 0x20
    ||| code == 0x85
    ||| code == 0xa0
    ||| code == 0x1680
    ||| 0x2000 <= code <= 0x200a
    ||| code == 0x2028
    ||| code == 0x2029
    ||| code == 0x202f
    ||| code == 0x205f
    ||| code == 0x3000
}

/// `text` without the white space at its start.
pub open spec fn trimmed_start(text: Seq<char>) -> Seq<char>
    decreases text.len(),
{
    if text.len() > 0 && white_space(text[0]) {
        trimmed_start(text.subrange(1, text.len() as int))
    } else {
        text
    }
}

/// `text` without the white space at its end.
pub open spec fn trimmed_end(text: Seq<char>) -> Seq<char>
    decreases text.len(),
{
    if text.len() > 0 && white_space(text.last()) {
        trimmed_end(text.drop_last())
    } else {
        text
    }
}

/// `text` without the white space at its start and at its end.
pub open spec fn trimmed(text: Seq<char>) -> Seq<char> {
    trimmed_end(trimmed_start(text))
}

/// `c` is a decimal digit.
pub open spec fn is_digit(c: char) -> bool {
    '0' <= c <= '9'
}

/// Every character of `text` is a decimal digit.
pub open spec fn all_digits(text: Seq<char>) -> bool {
    forall|i: int| 0 <= i < text.len() ==> is_digit(#[trigger] text[i])
}

/// The number that the decimal digits `digits` write.
pub open spec fn digits_value(digits: Seq<char>) -> int
    decreases digits.len(),
{
    if digits.len() == 0 {
        0
    } else {
        10 * digits_value(digits.drop_last()) + (digits.last() as int - '0' as int)
    }
}

/// The byte that `text` writes in decimal: at least one digit, after a
/// plus sign or none, with a value of at most 255. Any other text writes
/// no byte.
pub open spec fn byte_of(text: Seq<char>) -> Option<u8> {
    let digits = if text.len() > 0 && text[0] == '+' {
        text.subrange(1, text.len() as int)
    } else {
        text
    };
    if digits.len() > 0 && all_digits(digits) && digits_value(digits) <= 255 {
        Some(digits_value(digits) as u8)
    } else {
        None
    }
}

/// The place of the first comma in `text`, or the length of `text` where
/// it has none.
pub open spec fn first_comma(text: Seq<char>) -> nat
    decreases text.len(),
{
    if text.len() == 0 || text[0] == ',' {
        0
    } else {
        1 + first_comma(text.subrange(1, text.len() as int))
    }
}

/// The bytes that `text` lists: `text` is cut at its commas, and every
/// piece, white space at its ends apart, must write a byte. Where one
/// does not, `text` lists nothing.
pub open spec fn values_of(text: Seq<char>) -> Option<Seq<u8>>
    decreases text.len(),
{
    let comma = first_comma(text) as int;
    match byte_of(trimmed(text.subrange(0, comma))) {
        None => None,
        Some(byte) => if comma >= text.len() {
            Some(seq![byte])
        } else {
            match values_of(text.subrange(comma + 1, text.len() as int)) {
                None => None,
                Some(rest) => Some(seq![byte] + rest),
            }
        },
    }
}

/// The byte values that the line `line` of a log holds, as text; `None` for
/// a line that holds none.
pub open spec fn line_data(line: Seq<char>) -> Option<Seq<char>> {
    regex_group(DATA_PATTERN@, line, 1)
}

/// The bytes that the line `line` of a log gives: none for a line without
/// byte values, `None` for a line whose values cannot be read.
pub open spec fn line_bytes(line: Seq<char>) -> Option<Seq<u8>> {
    match line_data(line) {
        None => Some(Seq::empty()),
        Some(text) => values_of(text),
    }
}

/// The bytes of all `lines`, in their order. A line that cannot be read
/// gives none.
pub open spec fn dump_bytes(lines: Seq<Seq<char>>) -> Seq<u8>
    decreases lines.len(),
{
    if lines.len() == 0 {
        Seq::empty()
    } else {
        dump_bytes(lines.drop_last()) + match line_bytes(lines.last()) {
            Some(bytes) => bytes,
            None => Seq::empty(),
        }
    }
}

/// The first comma of `text` is at `at`, where no comma comes before `at`
/// and `at` holds one or is the end of `text`.
pub proof fn lemma_first_comma(text: Seq<char>, at: int)
    requires
        0 <= at <= text.len(),
        forall|i: int| 0 <= i < at ==> text[i] != ',',
        at == text.len() || text[at] == ',',
    ensures
        first_comma(text) == at,
    decreases text.len(),
{
    if at > 0 {
        lemma_first_comma(text.subrange(1, text.len() as int), at - 1);
    }
}

/// Trimming `text` leaves the part from `from` to `to`, where only white
/// space lies outside that part and none at its two ends.
pub proof fn lemma_trimmed(text: Seq<char>, from: int, to: int)
    requires
        0 <= from <= to <= text.len(),
        forall|i: int| 0 <= i < from ==> white_space(#[trigger] text[i]),
        forall|i: int| to <= i < text.len() ==> white_space(#[trigger] text[i]),
        from < to ==> !white_space(text[from]) && !white_space(text[to - 1]),
    ensures
        trimmed(text) == text.subrange(from, to),
{
    if from == to {
        lemma_trimmed_start(text, text.len() as int);
        assert(text.subrange(text.len() as int, text.len() as int) =~= text.subrange(from, to));
    } else {
        lemma_trimmed_start(text, from);
        lemma_trimmed_end(text.subrange(from, text.len() as int), to - from);
        assert(text.subrange(from, text.len() as int).subrange(0, to - from) =~= text.subrange(
            from,
            to,
        ));
    }
}

proof fn lemma_trimmed_start(text: Seq<char>, from: int)
    requires
        0 <= from <= text.len(),
        forall|i: int| 0 <= i < from ==> white_space(#[trigger] text[i]),
        from < text.len() ==> !white_space(text[from]),
    ensures
        trimmed_start(text) == text.subrange(from, text.len() as int),
    decreases text.len(),
{
    if from > 0 {
        let rest = text.subrange(1, text.len() as int);
        assert forall|i: int| 0 <= i < from - 1 implies white_space(#[trigger] rest[i]) by {
            assert(rest[i] == text[i + 1]);
        }
        lemma_trimmed_start(rest, from - 1);
        assert(rest.subrange(from - 1, rest.len() as int) =~= text.subrange(
            from,
            text.len() as int,
        ));
    } else {
        assert(text.subrange(0, text.len() as int) =~= text);
    }
}

proof fn lemma_trimmed_end(text: Seq<char>, to: int)
    requires
        0 <= to <= text.len(),
        forall|i: int| to <= i < text.len() ==> white_space(#[trigger] text[i]),
        0 < to ==> !white_space(text[to - 1]),
    ensures
        trimmed_end(text) == text.subrange(0, to),
    decreases text.len(),
{
    if to < text.len() {
        let rest = text.drop_last();
        assert forall|i: int| to <= i < rest.len() implies white_space(#[trigger] rest[i]) by {
            assert(rest[i] == text[i]);
        }
        lemma_trimmed_end(rest, to);
        assert(rest.subrange(0, to) =~= text.subrange(0, to));
    } else {
        assert(text.subrange(0, text.len() as int) =~= text);
    }
}

/// Digits that follow do not make a number smaller.
pub proof fn lemma_digits_value_grows(digits: Seq<char>, upto: int)
    requires
        all_digits(digits),
        0 <= upto <= digits.len(),
    ensures
        0 <= digits_value(digits.subrange(0, upto)) <= digits_value(digits),
    decreases digits.len() - upto,
{
    if upto == digits.len() {
        assert(digits.subrange(0, upto) =~= digits);
        lemma_digits_value_nonnegative(digits);
    } else {
        let longer = digits.subrange(0, upto + 1);
        lemma_digits_value_grows(digits, upto + 1);
        assert(longer.drop_last() =~= digits.subrange(0, upto));
        assert(is_digit(digits[upto]));
        lemma_digits_value_nonnegative(digits.subrange(0, upto));
    }
}

proof fn lemma_digits_value_nonnegative(digits: Seq<char>)
    requires
        all_digits(digits),
    ensures
        digits_value(digits) >= 0,
    decreases digits.len(),
{
    if digits.len() > 0 {
        assert(is_digit(digits[digits.len() - 1]));
        lemma_digits_value_nonnegative(digits.drop_last());
    }
}

/// Tells whether `c` is white space.
pub fn is_white_space(c: char) -> (space: bool)
    ensures
        space == white_space(c),
{
    let code: u32 = c as u32;
    (0x09 <= code && code <= 0x0d) || code == 0x20 || code == 0x85 || code == 0xa0 || code
        == 0x1680 || (0x2000 <= code && code <= 0x200a) || code == 0x2028 || code == 0x2029
        || code == 0x202f || code == 0x205f || code == 0x3000
}

/// Reads the byte that the characters of `chars` from `from` up to `to`
/// write in decimal.
pub fn parse_byte(chars: &Vec<char>, from: usize, to: usize) -> (byte: Option<u8>)
    requires
        from <= to <= chars.len(),
    ensures
        byte == byte_of(chars@.subrange(from as int, to as int)),
{
    let ghost text = chars@.subrange(from as int, to as int);
    let mut at: usize = from;
    if at < to && chars[at] == '+' {
        at += 1;
    }
    let first: usize = at;
    let ghost digits = chars@.subrange(first as int, to as int);
    assert(digits =~= if text.len() > 0 && text[0] == '+' {
        text.subrange(1, text.len() as int)
    } else {
        text
    });
    if at == to {
        return None;
    }
    let mut value: u32 = 0;
    while at < to
        invariant
            first <= at <= to <= chars.len(),
            digits == chars@.subrange(first as int, to as int),
            byte_of(chars@.subrange(from as int, to as int)) == if all_digits(digits)
                && digits_value(digits) <= 255 {
                Some(digits_value(digits) as u8)
            } else {
                None
            },
            all_digits(digits.subrange(0, at - first)),
            value == digits_value(digits.subrange(0, at - first)),
            value <= 255,
        decreases to - at,
    {
        let c: char = chars[at];
        let ghost read = digits.subrange(0, at - first);
        let ghost longer = digits.subrange(0, at - first + 1);
        assert(longer.drop_last() =~= read);
        assert(longer.last() == c);
        if !('0' <= c && c <= '9') {
            assert(!is_digit(digits[at - first]));
            assert(!all_digits(digits));
            return None;
        }
        value = value * 10 + (c as u32 - '0' as u32);
        assert(value == digits_value(longer));
        assert forall|i: int| 0 <= i < longer.len() implies is_digit(#[trigger] longer[i]) by {
            if i < read.len() {
                assert(read[i] == longer[i]);
            }
        }
        if value > 255 {
            proof {
                if all_digits(digits) {
                    lemma_digits_value_grows(digits, at - first + 1);
                }
            }
            return None;
        }
        at += 1;
    }
    assert(digits.subrange(0, to - first) =~= digits);
    Some(value as u8)
}

/// The characters of `text`.
fn chars_of(text: &str) -> (chars: Vec<char>)
    ensures
        chars@ == text@,
{
    let mut chars: Vec<char> = Vec::new();
    for c in walk: text.chars()
        invariant
            chars@ == walk.seq().subrange(0, walk.index() as int),
            walk.seq() == text@,
    {
        chars.push(c);
    }
    chars
}

/// Reads the bytes that `text` lists in decimal, separated by commas and
/// with white space allowed around each. `None` is returned where a piece
/// between two commas, or before the first or after the last, writes no
/// byte.
pub fn decode_values(text: &str) -> (values: Option<Vec<u8>>)
    ensures
        values matches Some(bytes) ==> values_of(text@) == Some(bytes@),
        values is None ==> values_of(text@) is None,
{
    let chars: Vec<char> = chars_of(text);
    let len: usize = chars.len();
    let mut bytes: Vec<u8> = Vec::new();
    let mut start: usize = 0;
    proof {
        assert(chars@.subrange(0, len as int) =~= text@);
        match values_of(text@) {
            None => {},
            Some(rest) => {
                assert(bytes@ + rest =~= rest);
            },
        }
    }
    loop
        invariant
            chars@ == text@,
            len == chars.len(),
            start <= len,
            match values_of(chars@.subrange(start as int, len as int)) {
                None => values_of(text@) is None,
                Some(rest) => values_of(text@) == Some(bytes@ + rest),
            },
        decreases len - start,
    {
        let ghost left = chars@.subrange(start as int, len as int);
        let mut comma: usize = start;
        while comma < len && chars[comma] != ','
            invariant
                start <= comma <= len,
                len == chars.len(),
                forall|i: int| start <= i < comma ==> chars[i] != ',',
            decreases len - comma,
        {
            comma += 1;
        }
        let mut from: usize = start;
        while from < comma && is_white_space(chars[from])
            invariant
                start <= from <= comma <= chars.len(),
                forall|i: int| start <= i < from ==> white_space(#[trigger] chars[i]),
            decreases comma - from,
        {
            from += 1;
        }
        let mut to: usize = comma;
        while from < to && is_white_space(chars[to - 1])
            invariant
                from <= to <= comma <= chars.len(),
                forall|i: int| to <= i < comma ==> white_space(#[trigger] chars[i]),
            decreases to - from,
        {
            to -= 1;
        }
        let ghost piece = left.subrange(0, comma - start);
        proof {
            lemma_first_comma(left, comma - start);
            assert(piece =~= chars@.subrange(start as int, comma as int));
            lemma_trimmed(piece, from - start, to - start);
            assert(piece.subrange(from - start, to - start) =~= chars@.subrange(
                from as int,
                to as int,
            ));
        }
        match parse_byte(&chars, from, to) {
            None => {
                return None;
            },
            Some(byte) => {
                let ghost before = bytes@;
                bytes.push(byte);
                if comma >= len {
                    assert(before + seq![byte] =~= bytes@);
                    return Some(bytes);
                }
                proof {
                    let after = left.subrange(comma - start + 1, left.len() as int);
                    assert(after =~= chars@.subrange(comma + 1, len as int));
                    match values_of(after) {
                        None => {},
                        Some(rest) => {
                            assert(before + (seq![byte] + rest) =~= bytes@ + rest);
                        },
                    }
                }
                start = comma + 1;
            },
        }
    }
}

/// Finds the byte values on the line `line` of a log, as text.
pub fn find_data(line: &str) -> (data: Option<String>)
    ensures
        data matches Some(text) ==> line_data(line@) == Some(text@),
        data is None ==> line_data(line@) is None,
{
    regex_capture(DATA_PATTERN, line, 1)
}

/// A line of a log holds byte values that cannot be read.
#[derive(Debug, Clone, Copy, PartialEq, Eq, Structural)]
pub struct MalformedLine {
    /// The number of the line, counting from 0.
    pub index: usize,
}

/// Reads a maze back from the lines of a log: the bits of all bytes that
/// the lines hold, eight for each byte, `true` for a set bit, which is a
/// closed wall. The first line whose byte values cannot be read ends the
/// reading with an error.
pub fn read_dump(lines: &Vec<String>) -> (read: Result<Vec<bool>, MalformedLine>)
    ensures
        match read {
            Ok(bits) => {
                &&& forall|i: int| 0 <= i < lines.len() ==> line_bytes(#[trigger] lines[i]@) is Some
                &&& bits@ == bits_of(dump_bytes(lines.deep_view()))
            },
            Err(error) => {
                &&& error.index < lines.len()
                &&& line_bytes(lines[error.index as int]@) is None
                &&& forall|i: int| 0 <= i < error.index ==> line_bytes(#[trigger] lines[i]@) is Some
            },
        },
{
    let mut bytes: Vec<u8> = Vec::new();
    let mut i: usize = 0;
    while i < lines.len()
        invariant
            i <= lines.len(),
            forall|j: int| 0 <= j < i ==> line_bytes(#[trigger] lines[j]@) is Some,
            bytes@ == dump_bytes(lines.deep_view().subrange(0, i as int)),
        decreases lines.len() - i,
    {
        let ghost before = lines.deep_view().subrange(0, i as int);
        let ghost after = lines.deep_view().subrange(0, i + 1);
        assert(after.drop_last() =~= before);
        assert(after.last() == lines[i as int]@);
        match find_data(lines[i].as_str()) {
            None => {},
            Some(text) => {
                match decode_values(text.as_str()) {
                    None => {
                        return Err(MalformedLine { index: i });
                    },
                    Some(mut values) => {
                        bytes.append(&mut values);
                    },
                }
            },
        }
        i += 1;
    }
    assert(lines.deep_view().subrange(0, lines.len() as int) =~= lines.deep_view());
    Ok(unpack_bits(&bytes))
}

} // verus!
