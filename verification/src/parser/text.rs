//! Lines, tokens and numbers in the bytes of an instance file.

use vstd::prelude::*;
use vstd::string::StringSliceAdditionalSpecFns;

verus! {

/// Whether `byte` is ASCII whitespace: a blank or one of the control
/// characters from tab to carriage return.
pub open spec fn spec_is_space(byte: u8) -> bool {
    byte == 32 || (9 <= byte <= 13)
}

/// Whether `byte` is ASCII whitespace.
#[verifier::when_used_as_spec(spec_is_space)]
pub fn is_space(byte: u8) -> (res: bool)
    ensures
        res == spec_is_space(byte),
{
    byte == 32 || (9 <= byte && byte <= 13)
}

/// Whether `position` is where `needle` first occurs in `haystack`.
pub open spec fn is_first_occurrence(haystack: Seq<u8>, needle: u8, position: int) -> bool {
    &&& 0 <= position < haystack.len()
    &&& haystack[position] == needle
    &&& forall|i: int| 0 <= i < position ==> haystack[i] != needle
}

/// Calls `memchr::memchr`, which searches a byte slice for the first
/// occurrence of a byte. The contract is what its documentation states: the
/// index of the first occurrence if there is one, and `None` if the byte
/// does not occur.
#[verifier::external_body]
fn first_occurrence(needle: u8, haystack: &[u8]) -> (res: Option<usize>)
    ensures
        match res {
            Some(position) => is_first_occurrence(haystack@, needle, position as int),
            None => forall|i: int| 0 <= i < haystack@.len() ==> haystack@[i] != needle,
        },
{
    memchr::memchr(needle, haystack)
}

/// Where the line that starts at `start` ends: at the first line feed from
/// `start` on, or at the end of `content` if there is none.
pub open spec fn line_end(content: Seq<u8>, start: int) -> int
    decreases content.len() - start,
{
    if start >= content.len() {
        content.len() as int
    } else if content[start] == 10 {
        start
    } else {
        line_end(content, start + 1)
    }
}

/// The end of a line is at or after its start, inside the content, and no
/// line feed lies between the two.
pub proof fn lemma_line_end(content: Seq<u8>, start: int)
    requires
        0 <= start <= content.len(),
    ensures
        start <= line_end(content, start) <= content.len(),
        line_end(content, start) < content.len() ==> content[line_end(content, start)] == 10,
        forall|i: int| start <= i < line_end(content, start) ==> content[i] != 10,
    decreases content.len() - start,
{
    if start < content.len() && content[start] != 10 {
        lemma_line_end(content, start + 1);
    }
}

/// Where the line feed after a position without line feeds before it is,
/// there the line ends.
pub proof fn lemma_line_end_is(content: Seq<u8>, start: int, end: int)
    requires
        0 <= start <= end <= content.len(),
        end < content.len() ==> content[end] == 10,
        forall|i: int| start <= i < end ==> content[i] != 10,
    ensures
        line_end(content, start) == end,
    decreases end - start,
{
    if start < end {
        lemma_line_end_is(content, start + 1, end);
    }
}

/// Finds the end of the line that starts at `start`, and whether a line
/// feed ends it.
pub fn find_line_end(content: &[u8], start: usize) -> (res: (usize, bool))
    requires
        start <= content@.len(),
    ensures
        res.0 == line_end(content@, start as int),
        start <= res.0 <= content@.len(),
        res.1 == (res.0 < content@.len()),
{
    let rest = &content[start..content.len()];
    match first_occurrence(10, rest) {
        Some(offset) => {
            proof {
                assert(content@[start + offset] == rest@[offset as int]);
                assert forall|i: int| start <= i < start + offset implies content@[i] != 10 by {
                    assert(content@[i] == rest@[i - start]);
                }
                lemma_line_end_is(content@, start as int, start + offset);
            }
            (start + offset, true)
        },
        None => {
            proof {
                assert forall|i: int| start <= i < content@.len() implies content@[i] != 10 by {
                    assert(content@[i] == rest@[i - start]);
                }
                lemma_line_end_is(content@, start as int, content@.len() as int);
            }
            (content.len(), false)
        },
    }
}

/// The first position from `start` on, and before `end`, that holds
/// `byte`; `end` if there is none.
pub open spec fn position_of(content: Seq<u8>, byte: u8, start: int, end: int) -> int
    decreases end - start,
{
    if start >= end {
        end
    } else if content[start] == byte {
        start
    } else {
        position_of(content, byte, start + 1, end)
    }
}

/// Where a byte is, with none like it before, there is its position.
pub proof fn lemma_position_of_is(content: Seq<u8>, byte: u8, start: int, at: int, end: int)
    requires
        start <= at <= end,
        at < end ==> content[at] == byte,
        forall|i: int| start <= i < at ==> content[i] != byte,
    ensures
        position_of(content, byte, start, end) == at,
    decreases at - start,
{
    if start < at {
        lemma_position_of_is(content, byte, start + 1, at, end);
    }
}

/// Finds the first `byte` in `start..end` of `content`; `end` if there is
/// none.
pub fn find_byte(content: &[u8], byte: u8, start: usize, end: usize) -> (res: usize)
    requires
        start <= end <= content@.len(),
    ensures
        res == position_of(content@, byte, start as int, end as int),
        start <= res <= end,
{
    let part = &content[start..end];
    match first_occurrence(byte, part) {
        Some(offset) => {
            proof {
                assert(content@[start + offset] == part@[offset as int]);
                assert forall|i: int| start <= i < start + offset implies content@[i] != byte by {
                    assert(content@[i] == part@[i - start]);
                }
                lemma_position_of_is(content@, byte, start as int, start + offset, end as int);
            }
            start + offset
        },
        None => {
            proof {
                assert forall|i: int| start <= i < end implies content@[i] != byte by {
                    assert(content@[i] == part@[i - start]);
                }
                lemma_position_of_is(content@, byte, start as int, end as int, end as int);
            }
            end
        },
    }
}

/// The first position from `start` on, and before `end`, that does not hold
/// whitespace; `end` if there is none.
pub open spec fn skip_spaces(content: Seq<u8>, start: int, end: int) -> int
    decreases end - start,
{
    if start >= end {
        end
    } else if !spec_is_space(content[start]) {
        start
    } else {
        skip_spaces(content, start + 1, end)
    }
}

/// The first position from `start` on, and before `end`, that holds
/// whitespace; `end` if there is none.
pub open spec fn skip_token(content: Seq<u8>, start: int, end: int) -> int
    decreases end - start,
{
    if start >= end {
        end
    } else if spec_is_space(content[start]) {
        start
    } else {
        skip_token(content, start + 1, end)
    }
}

/// The last position before `end`, and not before `start`, after which only
/// whitespace follows up to `end`.
pub open spec fn skip_spaces_back(content: Seq<u8>, start: int, end: int) -> int
    decreases end - start,
{
    if end <= start {
        start
    } else if !spec_is_space(content[end - 1]) {
        end
    } else {
        skip_spaces_back(content, start, end - 1)
    }
}

/// The part of `start..end` without the whitespace at its two ends.
pub open spec fn trimmed(content: Seq<u8>, start: int, end: int) -> (int, int) {
    let first = skip_spaces(content, start, end);
    (first, skip_spaces_back(content, first, end))
}

/// Skips whitespace from `start` on.
pub fn skip_spaces_from(content: &[u8], start: usize, end: usize) -> (res: usize)
    requires
        start <= end <= content@.len(),
    ensures
        res == skip_spaces(content@, start as int, end as int),
        start <= res <= end,
{
    let mut at = start;
    while at < end && is_space(content[at])
        invariant
            start <= at <= end <= content@.len(),
            skip_spaces(content@, at as int, end as int) == skip_spaces(
                content@,
                start as int,
                end as int,
            ),
        decreases end - at,
    {
        at = at + 1;
    }
    at
}

/// Skips everything but whitespace from `start` on.
pub fn skip_token_from(content: &[u8], start: usize, end: usize) -> (res: usize)
    requires
        start <= end <= content@.len(),
    ensures
        res == skip_token(content@, start as int, end as int),
        start <= res <= end,
{
    let mut at = start;
    while at < end && !is_space(content[at])
        invariant
            start <= at <= end <= content@.len(),
            skip_token(content@, at as int, end as int) == skip_token(
                content@,
                start as int,
                end as int,
            ),
        decreases end - at,
    {
        at = at + 1;
    }
    at
}

/// Removes the whitespace at both ends of `start..end`.
pub fn trim(content: &[u8], start: usize, end: usize) -> (res: (usize, usize))
    requires
        start <= end <= content@.len(),
    ensures
        (res.0 as int, res.1 as int) == trimmed(content@, start as int, end as int),
        start <= res.0 <= res.1 <= end,
{
    let first = skip_spaces_from(content, start, end);
    let mut last = end;
    while last > first && is_space(content[last - 1])
        invariant
            first <= last <= end <= content@.len(),
            skip_spaces_back(content@, first as int, last as int) == skip_spaces_back(
                content@,
                first as int,
                end as int,
            ),
        decreases last - first,
    {
        last = last - 1;
    }
    (first, last)
}

/// Whether the bytes `start..end` of `content` are the bytes of `word`.
pub fn is_word(content: &[u8], start: usize, end: usize, word: &str) -> (res: bool)
    requires
        start <= end <= content@.len(),
    ensures
        res == (content@.subrange(start as int, end as int) == word.spec_bytes()),
{
    let bytes = word.as_bytes();
    if bytes.len() != end - start {
        return false;
    }
    let mut i: usize = 0;
    while i < bytes.len()
        invariant
            i <= bytes@.len(),
            bytes@ == word.spec_bytes(),
            bytes@.len() == end - start,
            start <= end <= content@.len(),
            forall|k: int| 0 <= k < i ==> content@[start + k] == bytes@[k],
        decreases bytes.len() - i,
    {
        if content[start + i] != bytes[i] {
            proof {
                assert(content@.subrange(start as int, end as int)[i as int] != bytes@[i as int]);
            }
            return false;
        }
        i = i + 1;
    }
    proof {
        assert(content@.subrange(start as int, end as int) =~= bytes@);
    }
    true
}

/// Whether the byte `byte` occurs in `start..end` of `content`.
pub fn contains_byte(content: &[u8], start: usize, end: usize, byte: u8) -> (res: bool)
    requires
        start <= end <= content@.len(),
    ensures
        res == content@.subrange(start as int, end as int).contains(byte),
{
    let part = &content[start..end];
    match first_occurrence(byte, part) {
        Some(position) => {
            proof {
                assert(part@[position as int] == byte);
            }
            true
        },
        None => {
            proof {
                assert(!part@.contains(byte));
            }
            false
        },
    }
}

/// The number that the decimal digits `digits` write, read from the left.
pub open spec fn decimal_value(digits: Seq<u8>) -> int
    decreases digits.len(),
{
    if digits.len() == 0 {
        0
    } else {
        decimal_value(digits.drop_last()) * 10 + (digits.last() - 48)
    }
}

/// Whether every byte of `digits` is a decimal digit.
pub open spec fn all_digits(digits: Seq<u8>) -> bool {
    forall|i: int| 0 <= i < digits.len() ==> 48 <= #[trigger] digits[i] <= 57
}

/// The digits of `text` once one leading `+` is taken off.
pub open spec fn unsigned_digits(text: Seq<u8>) -> Seq<u8> {
    if text.len() > 0 && text[0] == 43 {
        text.subrange(1, text.len() as int)
    } else {
        text
    }
}

/// The number that `text` writes in decimal, if it writes one that fits in
/// `usize`: at least one decimal digit and nothing else, but for one `+` in
/// front.
pub open spec fn decimal_number(text: Seq<u8>) -> Option<usize> {
    let digits = unsigned_digits(text);
    if digits.len() > 0 && all_digits(digits) && decimal_value(digits) <= usize::MAX {
        Some(decimal_value(digits) as usize)
    } else {
        None
    }
}

/// The value of decimal digits does not shrink when digits are appended.
pub proof fn lemma_decimal_value_grows(digits: Seq<u8>, k: int)
    requires
        all_digits(digits),
        0 <= k <= digits.len(),
    ensures
        0 <= decimal_value(digits.take(k)) <= decimal_value(digits),
    decreases digits.len() - k,
{
    if k == digits.len() {
        assert(digits.take(k) =~= digits);
        lemma_decimal_value_nonnegative(digits);
    } else {
        lemma_decimal_value_grows(digits, k + 1);
        assert(digits.take(k + 1).drop_last() =~= digits.take(k));
        lemma_decimal_value_nonnegative(digits.take(k));
    }
}

/// The value of decimal digits is not negative.
pub proof fn lemma_decimal_value_nonnegative(digits: Seq<u8>)
    requires
        all_digits(digits),
    ensures
        0 <= decimal_value(digits),
    decreases digits.len(),
{
    if digits.len() > 0 {
        lemma_decimal_value_nonnegative(digits.drop_last());
    }
}

/// Reads the bytes `start..end` of `content` as a decimal number.
pub fn parse_decimal(content: &[u8], start: usize, end: usize) -> (res: Option<usize>)
    requires
        start <= end <= content@.len(),
    ensures
        res == decimal_number(content@.subrange(start as int, end as int)),
{
    let ghost text = content@.subrange(start as int, end as int);
    let first = if start < end && content[start] == 43 {
        start + 1
    } else {
        start
    };
    let ghost digits = unsigned_digits(text);
    proof {
        assert(digits =~= content@.subrange(first as int, end as int));
    }
    if first == end {
        return None;
    }
    let mut value: usize = 0;
    let mut at = first;
    while at < end
        invariant
            start <= first <= at <= end <= content@.len(),
            first < end,
            digits == content@.subrange(first as int, end as int),
            digits == unsigned_digits(content@.subrange(start as int, end as int)),
            all_digits(digits.take(at - first)),
            value == decimal_value(digits.take(at - first)),
        decreases end - at,
    {
        let byte = content[at];
        proof {
            assert(digits.take(at - first + 1).drop_last() =~= digits.take(at - first));
            assert(digits.take(at - first + 1).last() == byte);
        }
        if byte < 48 || byte > 57 {
            proof {
                assert(digits[at - first] == byte);
            }
            return None;
        }
        let ghost longer = digits.take(at - first + 1);
        proof {
            assert forall|i: int| 0 <= i < longer.len() implies 48 <= #[trigger] longer[i]
                <= 57 by {
                if i < at - first {
                    assert(longer[i] == digits.take(at - first)[i]);
                }
            }
        }
        proof {
            assert(decimal_value(longer) == value * 10 + (byte - 48));
        }
        let scaled = match value.checked_mul(10) {
            Some(scaled) => scaled,
            None => {
                proof {
                    if all_digits(digits) {
                        lemma_decimal_value_grows(digits, at - first + 1);
                    }
                }
                return None;
            },
        };
        value = match scaled.checked_add((byte - 48) as usize) {
            Some(sum) => sum,
            None => {
                proof {
                    if all_digits(digits) {
                        lemma_decimal_value_grows(digits, at - first + 1);
                    }
                }
                return None;
            },
        };
        at = at + 1;
    }
    proof {
        assert(digits.take(at - first) =~= digits);
    }
    Some(value)
}

/// The text that `String::from_utf8_lossy` makes of `bytes`, valid UTF-8 or
/// not.
pub uninterp spec fn lossy_text(bytes: Seq<u8>) -> Seq<char>;

/// Calls `String::from_utf8_lossy`, which decodes bytes as UTF-8 and puts
/// the replacement character in place of what is not UTF-8. The contract
/// says that valid UTF-8 is decoded as it stands, and gives the result a
/// name in every case.
#[verifier::external_body]
pub(crate) fn text_of(bytes: &[u8]) -> (res: String)
    ensures
        res@ == lossy_text(bytes@),
        vstd::utf8::valid_utf8(bytes@) ==> res@ == vstd::utf8::decode_utf8(bytes@),
{
    String::from_utf8_lossy(bytes).into_owned()
}

} // verus!
