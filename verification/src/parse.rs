//! Reading what a compiler writes about a node: the name of the part that
//! a node plays, and the place of a node in the source file.

use crate::ast::Role;
use crate::text::same_text;
use vstd::prelude::*;
use vstd::string::StringSliceAdditionalSpecFns;

verus! {

/// The part that a node plays which stands under the key `key` in the node
/// above it.
pub open spec fn role_of(key: Seq<char>) -> Role {
    if key == "expression"@ {
        Role::Expression
    } else if key == "leftExpression"@ {
        Role::LeftExpression
    } else if key == "rightExpression"@ {
        Role::RightExpression
    } else if key == "condition"@ {
        Role::Condition
    } else if key == "arguments"@ {
        Role::Argument
    } else if key == "statements"@ {
        Role::Statement
    } else {
        Role::Other
    }
}

/// The byte is a decimal digit.
pub open spec fn is_digit(byte: u8) -> bool {
    48 <= byte <= 57
}

/// The bytes are decimal digits, at least one.
pub open spec fn all_digits(bytes: Seq<u8>) -> bool {
    bytes.len() > 0 && forall|i: int| 0 <= i < bytes.len() ==> is_digit(#[trigger] bytes[i])
}

/// The number that a run of decimal digits stands for.
pub open spec fn number(digits: Seq<u8>) -> nat
    decreases digits.len(),
{
    if digits.len() == 0 {
        0
    } else {
        number(digits.drop_last()) * 10 + (digits.last() - 48) as nat
    }
}

/// The index of the first colon at `from` or behind it; the length of the
/// text where there is none.
pub open spec fn field_end(text: Seq<u8>, from: int) -> int
    decreases text.len() - from,
{
    if from >= text.len() {
        text.len() as int
    } else if text[from] == 58 {
        from
    } else {
        field_end(text, from + 1)
    }
}

/// The number that the bytes stand for, where they are decimal digits and
/// the number is one of the machine.
pub open spec fn number_of(bytes: Seq<u8>) -> Option<usize> {
    if all_digits(bytes) && number(bytes) <= usize::MAX {
        Some(number(bytes) as usize)
    } else {
        None
    }
}

/// The span that a text of the form `start:length`, or `start:length:` and
/// more, stands for: the range from `start` to `start + length`. There is
/// none where the text has another form, or a number in it is too large.
pub open spec fn span_of(text: Seq<u8>) -> Option<(usize, usize)> {
    let first = field_end(text, 0);
    let second = field_end(text, first + 1);
    if first >= text.len() {
        None
    } else {
        match (number_of(text.subrange(0, first)), number_of(text.subrange(first + 1, second))) {
            (Some(start), Some(length)) => if start + length <= usize::MAX {
                Some((start, (start + length) as usize))
            } else {
                None
            },
            _ => None,
        }
    }
}

impl Role {
    /// The part that a node plays which stands under the key `key`.
    pub fn from_key(key: &str) -> (role: Role)
        ensures
            role == role_of(key@),
    {
        if same_text(key, "expression") {
            Role::Expression
        } else if same_text(key, "leftExpression") {
            Role::LeftExpression
        } else if same_text(key, "rightExpression") {
            Role::RightExpression
        } else if same_text(key, "condition") {
            Role::Condition
        } else if same_text(key, "arguments") {
            Role::Argument
        } else if same_text(key, "statements") {
            Role::Statement
        } else {
            Role::Other
        }
    }
}

/// A run of digits stands for no smaller number than any of its beginnings.
proof fn lemma_number_grows(digits: Seq<u8>, k: int)
    requires
        0 <= k <= digits.len(),
        forall|i: int| 0 <= i < digits.len() ==> is_digit(#[trigger] digits[i]),
    ensures
        number(digits.take(k)) <= number(digits),
    decreases digits.len() - k,
{
    if k < digits.len() {
        lemma_number_grows(digits, k + 1);
        assert(digits.take(k + 1).drop_last() =~= digits.take(k));
    } else {
        assert(digits.take(k) =~= digits);
    }
}

/// The index of the first colon at `from` or behind it.
fn find_colon(text: &[u8], from: usize) -> (at: usize)
    requires
        from <= text@.len(),
    ensures
        at == field_end(text@, from as int),
        from <= at <= text@.len(),
{
    let mut at: usize = from;
    while at < text.len() && text[at] != 58
        invariant
            from <= at <= text@.len(),
            field_end(text@, from as int) == field_end(text@, at as int),
        decreases text.len() - at,
    {
        at += 1;
    }
    at
}

/// The number that the bytes of `text` at `[from, to)` stand for.
fn parse_number(text: &[u8], from: usize, to: usize) -> (value: Option<usize>)
    requires
        from <= to <= text@.len(),
    ensures
        value == number_of(text@.subrange(from as int, to as int)),
{
    let ghost digits = text@.subrange(from as int, to as int);
    if from == to {
        return None;
    }
    let mut value: usize = 0;
    let mut i: usize = from;
    assert(digits.take(0) =~= Seq::<u8>::empty());
    while i < to
        invariant
            from <= i <= to <= text@.len(),
            digits == text@.subrange(from as int, to as int),
            forall|j: int| 0 <= j < i - from ==> is_digit(#[trigger] digits[j]),
            value == number(digits.take(i - from)),
        decreases to - i,
    {
        let byte: u8 = text[i];
        if byte < 48 || byte > 57 {
            assert(!is_digit(digits[i - from]));
            return None;
        }
        proof {
            assert(digits.take(i - from + 1).drop_last() =~= digits.take(i - from));
            assert(digits.take(i - from + 1).last() == byte);
        }
        let ghost next = number(digits.take(i - from + 1));
        let scaled = match value.checked_mul(10) {
            Some(scaled) => scaled,
            None => {
                proof {
                    if all_digits(digits) {
                        lemma_number_grows(digits, i - from + 1);
                    }
                }
                return None;
            },
        };
        value = match scaled.checked_add((byte - 48) as usize) {
            Some(sum) => sum,
            None => {
                proof {
                    if all_digits(digits) {
                        lemma_number_grows(digits, i - from + 1);
                    }
                }
                return None;
            },
        };
        i += 1;
    }
    proof {
        assert(digits.take(to - from) =~= digits);
    }
    Some(value)
}

/// The span that a text of the form `start:length`, or `start:length:` and
/// more, stands for.
pub fn parse_span(text: &str) -> (span: Option<(usize, usize)>)
    ensures
        span == span_of(text.spec_bytes()),
{
    let bytes = text.as_bytes();
    let first: usize = find_colon(bytes, 0);
    if first >= bytes.len() {
        return None;
    }
    let second: usize = find_colon(bytes, first + 1);
    let start = parse_number(bytes, 0, first);
    let length = parse_number(bytes, first + 1, second);
    match start {
        Some(start) => match length {
            Some(length) => match start.checked_add(length) {
                Some(end) => Some((start, end)),
                None => None,
            },
            None => None,
        },
        None => None,
    }
}

} // verus!
