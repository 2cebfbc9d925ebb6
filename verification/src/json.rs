//! A reader for single JSON scalars.
//!
//! The reader skips punctuation and white space and takes the one value it
//! finds between them: `true`, `false`, `null`, or a number.  A number runs
//! from its first digit to the end of the text; its digits are handed out as
//! they stand, to be turned into a number by the caller.

use vstd::prelude::*;
use vstd::string::StringSliceAdditionalSpecFns;

verus! {

/// A JSON value.
#[derive(Debug, PartialEq)]
pub enum JValue {
    JBoolean(bool),
    JString(String),
    /// The text of a number.
    JNumber(Vec<u8>),
    JArray(Vec<JValue>),
    JObject(Vec<(String, JValue)>),
    JNull,
}

/// What the reader can find in a text.
pub enum Scalar {
    Boolean(bool),
    /// The text of a number.
    Number(Seq<u8>),
    Null,
}

/// The value as the reader finds it; nothing for the values it never finds.
pub open spec fn scalar_of(value: JValue) -> Option<Scalar> {
    match value {
        JValue::JBoolean(b) => Some(Scalar::Boolean(b)),
        JValue::JNumber(text) => Some(Scalar::Number(text@)),
        JValue::JNull => Some(Scalar::Null),
        _ => None,
    }
}

/// ASCII punctuation.
pub open spec fn is_punctuation(c: u8) -> bool {
    (33 <= c <= 47) || (58 <= c <= 64) || (91 <= c <= 96) || (123 <= c <= 126)
}

/// ASCII white space: space, tab, line feed, form feed, carriage return.
pub open spec fn is_whitespace(c: u8) -> bool {
    c == 32 || c == 9 || c == 10 || c == 12 || c == 13
}

/// An ASCII digit.
pub open spec fn is_digit(c: u8) -> bool {
    48 <= c <= 57
}

/// The text holds `word` at `at`.
pub open spec fn word_at(text: Seq<u8>, at: int, word: Seq<u8>) -> bool {
    at + word.len() <= text.len() && text.subrange(at, at + word.len()) == word
}

/// The bytes of `true`.
pub open spec fn word_true() -> Seq<u8> {
    seq![116u8, 114u8, 117u8, 101u8]
}

/// The bytes of `false`.
pub open spec fn word_false() -> Seq<u8> {
    seq![102u8, 97u8, 108u8, 115u8, 101u8]
}

/// The bytes of `null`.
pub open spec fn word_null() -> Seq<u8> {
    seq![110u8, 117u8, 108u8, 108u8]
}

/// Reading on from `at`, with `count` values found so far, the last of
/// them being `last`: the count and the last value at the end of the text,
/// or nothing if the text holds something that is no value.
pub open spec fn scan(text: Seq<u8>, at: int, count: nat, last: Option<Scalar>) -> Option<
    (nat, Option<Scalar>),
>
    decreases text.len() - at,
{
    if at < 0 || at >= text.len() {
        Some((count, last))
    } else if is_punctuation(text[at]) || is_whitespace(text[at]) {
        scan(text, at + 1, count, last)
    } else if is_digit(text[at]) {
        Some((count + 1, Some(Scalar::Number(text.skip(at)))))
    } else if text[at] == 116 {
        if word_at(text, at, word_true()) {
            scan(text, at + 4, count + 1, Some(Scalar::Boolean(true)))
        } else {
            None
        }
    } else if text[at] == 102 {
        if word_at(text, at, word_false()) {
            scan(text, at + 5, count + 1, Some(Scalar::Boolean(false)))
        } else {
            None
        }
    } else if text[at] == 110 {
        if word_at(text, at, word_null()) {
            scan(text, at + 4, count + 1, Some(Scalar::Null))
        } else {
            None
        }
    } else {
        None
    }
}

/// The value of a text: the one value found in it, if the text holds
/// exactly one value and nothing else but punctuation and white space.
pub open spec fn value_of(text: Seq<u8>) -> Option<Scalar> {
    match scan(text, 0, 0, None) {
        Some((count, last)) => if count == 1 {
            last
        } else {
            None
        },
        None => None,
    }
}

/// The text of a value: always empty.
pub fn dumps(obj: &JValue) -> (text: String)
    ensures
        text@ == Seq::<char>::empty(),
{
    String::new()
}

/// Whether the text holds `word` at `at`.
fn has_word(bytes: &[u8], at: usize, word: &[u8]) -> (yes: bool)
    requires
        at <= bytes@.len(),
        word@.len() <= 8,
    ensures
        yes == word_at(bytes@, at as int, word@),
{
    if bytes.len() - at < word.len() {
        return false;
    }
    let mut i: usize = 0;
    while i < word.len()
        invariant
            0 <= i <= word@.len(),
            at + word@.len() <= bytes@.len(),
            bytes@.len() <= usize::MAX,
            forall|j: int| 0 <= j < i ==> bytes@[at + j] == word@[j],
        decreases word@.len() - i,
    {
        if bytes[at + i] != word[i] {
            proof {
                assert(bytes@.subrange(at as int, at + word@.len())[i as int] != word@[i as int]);
            }
            return false;
        }
        i += 1;
    }
    proof {
        assert(bytes@.subrange(at as int, at + word@.len()) =~= word@);
    }
    true
}

/// Reads the value of a text; `None` if the text has none.
pub fn try_loads(s: &str) -> (value: Option<JValue>)
    ensures
        match value {
            Some(v) => scalar_of(v) is Some && scalar_of(v) == value_of(s.spec_bytes()),
            None => value_of(s.spec_bytes()) is None,
        },
{
    let bytes = s.as_bytes();
    let word_t: [u8; 4] = [116, 114, 117, 101];
    let word_f: [u8; 5] = [102, 97, 108, 115, 101];
    let word_n: [u8; 4] = [110, 117, 108, 108];
    let mut stack: Vec<JValue> = Vec::new();
    let mut at: usize = 0;
    let ghost mut last: Option<Scalar> = None;
    while at < bytes.len()
        invariant
            bytes@ == s.spec_bytes(),
            word_t@ == word_true(),
            word_f@ == word_false(),
            word_n@ == word_null(),
            0 <= at <= bytes@.len(),
            scan(bytes@, 0, 0, None) == scan(bytes@, at as int, stack@.len(), last),
            stack@.len() > 0 ==> scalar_of(stack@.last()) == last && last is Some,
            stack@.len() == 0 ==> last is None,
        decreases bytes@.len() - at,
    {
        let c = bytes[at];
        if (c >= 33 && c <= 47) || (c >= 58 && c <= 64) || (c >= 91 && c <= 96) || (c >= 123 && c
            <= 126) || c == 32 || c == 9 || c == 10 || c == 12 || c == 13 {
            at += 1;
        } else if c >= 48 && c <= 57 {
            let mut text: Vec<u8> = Vec::new();
            let mut i: usize = at;
            while i < bytes.len()
                invariant
                    at <= i <= bytes@.len(),
                    text@ == bytes@.subrange(at as int, i as int),
                decreases bytes@.len() - i,
            {
                text.push(bytes[i]);
                i += 1;
                proof {
                    assert(text@ =~= bytes@.subrange(at as int, i as int));
                }
            }
            proof {
                assert(text@ =~= bytes@.skip(at as int));
                last = Some(Scalar::Number(text@));
            }
            stack.push(JValue::JNumber(text));
            at = bytes.len();
        } else if c == 116 {
            if !has_word(bytes, at, &word_t) {
                return None;
            }
            stack.push(JValue::JBoolean(true));
            proof {
                last = Some(Scalar::Boolean(true));
            }
            at += 4;
        } else if c == 102 {
            if !has_word(bytes, at, &word_f) {
                return None;
            }
            stack.push(JValue::JBoolean(false));
            proof {
                last = Some(Scalar::Boolean(false));
            }
            at += 5;
        } else if c == 110 {
            if !has_word(bytes, at, &word_n) {
                return None;
            }
            stack.push(JValue::JNull);
            proof {
                last = Some(Scalar::Null);
            }
            at += 4;
        } else {
            return None;
        }
    }
    if stack.len() != 1 {
        return None;
    }
    stack.pop()
}

/// Reads the value of a text that has one.
pub fn loads(s: &str) -> (value: JValue)
    requires
        value_of(s.spec_bytes()) is Some,
    ensures
        scalar_of(value) == value_of(s.spec_bytes()),
{
    try_loads(s).unwrap()
}

} // verus!
