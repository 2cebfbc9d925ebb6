//! Base64 with the standard alphabet: encoding of a string's bytes, and
//! decoding that also accepts the URL-safe characters `-` and `_`.

use vstd::prelude::*;
use vstd::string::StringSliceAdditionalSpecFns;

verus! {

/// The padding character `=`.
pub const PADDING: u8 = 61;

/// Why a text could not be decoded.
#[derive(Debug, PartialEq)]
pub enum Cause {
    IncorrectPadding,
    IncorrectCharacter,
}

/// A failed decoding: its cause and a description for people.
#[derive(Debug)]
pub struct DecodeError {
    pub cause: Cause,
    pub desc: String,
}

/// Specifies `String::push` of the standard library: the character is
/// appended at the end of the string.
pub assume_specification[ std::string::String::push ](s: &mut std::string::String, c: char)
    ensures
        final(s)@ == old(s)@.push(c),
;

/// The text for an error about the byte `c`, as `format!` lays it out.
/// Nothing is claimed about the text.
#[verifier::external_body]
fn invalid_character_text(c: u8) -> String {
    format!("character {} is invalid base64 character", char::from(c))
}

/// The character that stands for the 6-bit value `index` in the standard
/// alphabet: `A`-`Z`, `a`-`z`, `0`-`9`, `+`, `/`.
pub open spec fn alphabet(index: u8) -> u8 {
    if index < 26 {
        (index + 65) as u8
    } else if index < 52 {
        (index + 71) as u8
    } else if index < 62 {
        (index - 4) as u8
    } else if index == 62 {
        43
    } else {
        47
    }
}

/// Whether `c` is a character of the standard or of the URL-safe alphabet.
pub open spec fn spec_is_base64_char(c: u8) -> bool {
    c == 43 || c == 45 || c == 47 || c == 95 || (65 <= c <= 90) || (97 <= c <= 122) || (48 <= c
        <= 57)
}

/// The 6-bit value that the character `c` stands for; the padding
/// character counts as 0.
pub open spec fn sextet(c: u8) -> u8 {
    if 65 <= c <= 90 {
        (c - 65) as u8
    } else if 97 <= c <= 122 {
        (c - 71) as u8
    } else if 48 <= c <= 57 {
        (c + 4) as u8
    } else if c == 43 || c == 45 {
        62
    } else if c == 47 || c == 95 {
        63
    } else {
        0
    }
}

/// The four characters that encode the three bytes `b0`, `b1`, `b2`.
pub open spec fn encode_group(b0: u8, b1: u8, b2: u8) -> Seq<u8> {
    seq![
        alphabet(b0 >> 2),
        alphabet(((b0 & 0x03) << 4) | (b1 >> 4)),
        alphabet(((b1 & 0x0f) << 2) | (b2 >> 6)),
        alphabet(b2 & 0x3f),
    ]
}

/// The encoding of the first `groups` groups of three bytes.
pub open spec fn encode_full(bytes: Seq<u8>, groups: nat) -> Seq<u8>
    decreases groups,
{
    if groups == 0 {
        Seq::empty()
    } else {
        encode_full(bytes, (groups - 1) as nat) + encode_group(
            bytes[3 * groups - 3],
            bytes[3 * groups - 2],
            bytes[3 * groups - 1],
        )
    }
}

/// The encoding of the one or two bytes left after the last full group,
/// filled up with the padding character.
pub open spec fn encode_tail(bytes: Seq<u8>) -> Seq<u8> {
    let n = bytes.len() as int;
    if n % 3 == 1 {
        encode_group(bytes[n - 1], 0, 0).subrange(0, 2) + seq![PADDING, PADDING]
    } else if n % 3 == 2 {
        encode_group(bytes[n - 2], bytes[n - 1], 0).subrange(0, 3) + seq![PADDING]
    } else {
        Seq::empty()
    }
}

/// The Base64 text of `bytes` in the standard alphabet, with padding.
pub open spec fn encoded(bytes: Seq<u8>) -> Seq<u8> {
    encode_full(bytes, (bytes.len() / 3) as nat) + encode_tail(bytes)
}

/// The bytes that the four characters `c0`..`c3` decode to.  A second or
/// third byte that comes out as 0 is left out.
pub open spec fn decode_group(c0: u8, c1: u8, c2: u8, c3: u8) -> Seq<u8> {
    let b0: u8 = (sextet(c0) << 2) | (sextet(c1) >> 4);
    let b1: u8 = ((sextet(c1) & 0x0f) << 4) | (sextet(c2) >> 2);
    let b2: u8 = ((sextet(c2) & 0x03) << 6) | sextet(c3);
    seq![b0] + (if b1 != 0 {
        seq![b1]
    } else {
        Seq::empty()
    }) + (if b2 != 0 {
        seq![b2]
    } else {
        Seq::empty()
    })
}

/// The bytes that the first `groups` groups of four characters decode to.
pub open spec fn decoded(text: Seq<u8>, groups: nat) -> Seq<u8>
    decreases groups,
{
    if groups == 0 {
        Seq::empty()
    } else {
        decoded(text, (groups - 1) as nat) + decode_group(
            text[4 * groups - 4],
            text[4 * groups - 3],
            text[4 * groups - 2],
            text[4 * groups - 1],
        )
    }
}

/// Whether a text that is not empty can be decoded: its length is a
/// multiple of four, all but its last two characters are of the alphabet,
/// the last two are of the alphabet or padding, and padding is not followed
/// by anything else.
pub open spec fn decodable(text: Seq<u8>) -> bool {
    let n = text.len() as int;
    &&& n % 4 == 0
    &&& n >= 4
    &&& forall|i: int| 0 <= i < n - 2 ==> spec_is_base64_char(#[trigger] text[i])
    &&& spec_is_base64_char(text[n - 2]) || text[n - 2] == PADDING
    &&& spec_is_base64_char(text[n - 1]) || text[n - 1] == PADDING
    &&& !(text[n - 2] == PADDING && text[n - 1] != PADDING)
}

/// Each byte as the character with that code point.
pub open spec fn latin1(bytes: Seq<u8>) -> Seq<char> {
    bytes.map_values(|b: u8| b as char)
}

/// The 6-bit value of a character of either alphabet or of the padding
/// character; any other byte is refused.
pub fn get_index_by_character(c: u8) -> (index: Result<u8, DecodeError>)
    ensures
        index is Ok <==> (spec_is_base64_char(c) || c == PADDING),
        index matches Ok(i) ==> i == sextet(c) && i < 64,
        index matches Err(e) ==> e.cause == Cause::IncorrectCharacter,
{
    if c >= 65 && c <= 90 {
        return Ok(c - 65);
    }
    if c >= 97 && c <= 122 {
        return Ok(c - 71);
    }
    if c >= 48 && c <= 57 {
        return Ok(c + 4);
    }
    if c == 43 {
        return Ok(c + 19);
    }
    if c == 45 {
        return Ok(c + 17);
    }
    if c == 47 {
        return Ok(c + 16);
    }
    if c == 95 {
        return Ok(c - 32);
    }
    if c == 61 {
        return Ok(0);
    }
    Err(DecodeError { cause: Cause::IncorrectCharacter, desc: invalid_character_text(c) })
}

/// Whether `c` is a character of the standard or of the URL-safe alphabet.
pub fn is_base64_char(c: u8) -> (valid: bool)
    ensures
        valid == spec_is_base64_char(c),
{
    c == 43 || c == 45 || c == 47 || c == 95 || (c >= 65 && c <= 90) || (c >= 97 && c <= 122) || (c
        >= 48 && c <= 57)
}

/// The character for a 6-bit value.
fn standard_char(index: u8) -> (c: u8)
    requires
        index < 64,
    ensures
        c == alphabet(index),
        c < 128,
{
    if index < 26 {
        index + 65
    } else if index < 52 {
        index + 71
    } else if index < 62 {
        index - 4
    } else if index == 62 {
        43
    } else {
        47
    }
}

/// Appends to `res` the characters of one group of three bytes, of which
/// only the first `keep` are kept and the others replaced by padding.
fn push_group(res: &mut String, b0: u8, b1: u8, b2: u8, keep: usize)
    requires
        2 <= keep <= 4,
    ensures
        final(res)@ == old(res)@ + latin1(
            encode_group(b0, b1, b2).subrange(0, keep as int) + Seq::new(
                (4 - keep) as nat,
                |i: int| PADDING,
            ),
        ),
{
    let index0: u8 = b0 >> 2;
    let index1: u8 = ((b0 & 0x03) << 4) | (b1 >> 4);
    let index2: u8 = ((b1 & 0x0f) << 2) | (b2 >> 6);
    let index3: u8 = b2 & 0x3f;
    assert(b0 >> 2 < 64) by (bit_vector);
    assert(((b0 & 0x03) << 4) | (b1 >> 4) < 64) by (bit_vector);
    assert(((b1 & 0x0f) << 2) | (b2 >> 6) < 64) by (bit_vector);
    assert(b2 & 0x3f < 64) by (bit_vector);
    let ghost before = res@;
    let ghost group = encode_group(b0, b1, b2);
    res.push(standard_char(index0) as char);
    res.push(standard_char(index1) as char);
    if keep >= 3 {
        res.push(standard_char(index2) as char);
    } else {
        res.push(PADDING as char);
    }
    if keep >= 4 {
        res.push(standard_char(index3) as char);
    } else {
        res.push(PADDING as char);
    }
    proof {
        let tail = group.subrange(0, keep as int) + Seq::new((4 - keep) as nat, |i: int| PADDING);
        assert(tail.len() == 4);
        assert(res@ =~= before + latin1(tail));
    }
}

/// Encodes the bytes of `s` in the standard Base64 alphabet.
pub fn base64_encode(s: &str) -> (res: String)
    ensures
        res@ == latin1(encoded(s.spec_bytes())),
{
    let bytes = s.as_bytes();
    let len = bytes.len();
    let loop_num = len / 3;
    let remaining = len % 3;
    let mut res = String::new();
    let mut i: usize = 0;
    while i < loop_num
        invariant
            bytes@ == s.spec_bytes(),
            len == bytes@.len(),
            loop_num == len / 3,
            0 <= i <= loop_num,
            res@ == latin1(encode_full(bytes@, i as nat)),
        decreases loop_num - i,
    {
        let ghost before = encode_full(bytes@, i as nat);
        push_group(&mut res, bytes[i * 3], bytes[i * 3 + 1], bytes[i * 3 + 2], 4);
        i += 1;
        proof {
            let group = encode_group(bytes@[3 * i - 3], bytes@[3 * i - 2], bytes@[3 * i - 1]);
            assert(group.subrange(0, 4) + Seq::new(0nat, |i: int| PADDING) =~= group);
            assert(latin1(before + group) =~= latin1(before) + latin1(group));
        }
    }
    let ghost full = encode_full(bytes@, loop_num as nat);
    if remaining == 1 {
        push_group(&mut res, bytes[len - 1], 0, 0, 2);
        proof {
            assert(Seq::new(2nat, |i: int| PADDING) =~= seq![PADDING, PADDING]);
            assert(latin1(full + encode_tail(bytes@)) =~= latin1(full) + latin1(
                encode_tail(bytes@),
            ));
        }
    } else if remaining == 2 {
        push_group(&mut res, bytes[len - 2], bytes[len - 1], 0, 3);
        proof {
            assert(Seq::new(1nat, |i: int| PADDING) =~= seq![PADDING]);
            assert(latin1(full + encode_tail(bytes@)) =~= latin1(full) + latin1(
                encode_tail(bytes@),
            ));
        }
    } else {
        proof {
            assert(full + encode_tail(bytes@) =~= full);
        }
    }
    res
}

/// Appends to `res` the bytes that one group of four characters decodes to.
fn push_decoded(res: &mut String, index0: u8, index1: u8, index2: u8, index3: u8)
    requires
        index0 < 64,
        index1 < 64,
        index2 < 64,
        index3 < 64,
    ensures
        final(res)@ == old(res)@ + latin1(
            {
                let b0: u8 = (index0 << 2) | (index1 >> 4);
                let b1: u8 = ((index1 & 0x0f) << 4) | (index2 >> 2);
                let b2: u8 = ((index2 & 0x03) << 6) | index3;
                seq![b0] + (if b1 != 0 {
                    seq![b1]
                } else {
                    Seq::empty()
                }) + (if b2 != 0 {
                    seq![b2]
                } else {
                    Seq::empty()
                })
            },
        ),
{
    let ghost before = res@;
    let b0: u8 = (index0 << 2) | (index1 >> 4);
    let b1: u8 = ((index1 & 0x0f) << 4) | (index2 >> 2);
    let b2: u8 = ((index2 & 0x03) << 6) | index3;
    res.push(b0 as char);
    if b1 != 0 {
        res.push(b1 as char);
    }
    if b2 != 0 {
        res.push(b2 as char);
    }
    proof {
        let out = seq![b0] + (if b1 != 0 {
            seq![b1]
        } else {
            Seq::empty()
        }) + (if b2 != 0 {
            seq![b2]
        } else {
            Seq::empty()
        });
        assert(res@ =~= before + latin1(out));
    }
}

/// Decodes a Base64 text.
///
/// The empty text decodes to the empty string.  Any other text must be
/// `decodable`, else the error is `IncorrectPadding`.  Every decoded byte
/// becomes the character with that code point.
pub fn base64_decode(s: &str) -> (res: Result<String, DecodeError>)
    ensures
        res is Ok <==> (s.spec_bytes().len() == 0 || decodable(s.spec_bytes())),
        res matches Ok(text) ==> text@ == latin1(
            decoded(s.spec_bytes(), (s.spec_bytes().len() / 4) as nat),
        ),
        res matches Err(e) ==> e.cause == Cause::IncorrectPadding,
{
    let bytes = s.as_bytes();
    let len = bytes.len();
    if len == 0 {
        return Ok(String::new());
    }
    if len % 4 != 0 {
        return Err(
            DecodeError {
                cause: Cause::IncorrectPadding,
                desc: "length of base64 string should be divisible by 4".to_owned(),
            },
        );
    }
    let mut p: usize = 0;
    while p < len - 2
        invariant
            bytes@ == s.spec_bytes(),
            len == bytes@.len(),
            len >= 4,
            0 <= p <= len - 2,
            forall|i: int| 0 <= i < p ==> spec_is_base64_char(#[trigger] bytes@[i]),
        decreases len - p,
    {
        if !is_base64_char(bytes[p]) {
            return Err(
                DecodeError {
                    cause: Cause::IncorrectPadding,
                    desc: "string contains invalid character".to_owned(),
                },
            );
        }
        p += 1;
    }
    let padding1 = bytes[len - 2];
    let padding2 = bytes[len - 1];
    if !is_base64_char(padding1) && padding1 != PADDING || !is_base64_char(padding2) && padding2
        != PADDING {
        return Err(
            DecodeError {
                cause: Cause::IncorrectPadding,
                desc: "padding character must be '='".to_owned(),
            },
        );
    }
    if padding1 == PADDING && padding2 != PADDING {
        return Err(
            DecodeError {
                cause: Cause::IncorrectPadding,
                desc: "padding must be either '=' or '=='".to_owned(),
            },
        );
    }
    let loop_num = len / 4;
    let mut res = String::new();
    let mut i: usize = 0;
    while i < loop_num
        invariant
            bytes@ == s.spec_bytes(),
            len == bytes@.len(),
            decodable(bytes@),
            loop_num == len / 4,
            0 <= i <= loop_num,
            res@ == latin1(decoded(bytes@, i as nat)),
        decreases loop_num - i,
    {
        let c0 = bytes[i * 4];
        let c1 = bytes[i * 4 + 1];
        let c2 = bytes[i * 4 + 2];
        let c3 = bytes[i * 4 + 3];
        let index0 = match get_index_by_character(c0) {
            Ok(index) => index,
            Err(e) => {
                return Err(e);
            },
        };
        let index1 = match get_index_by_character(c1) {
            Ok(index) => index,
            Err(e) => {
                return Err(e);
            },
        };
        let index2 = match get_index_by_character(c2) {
            Ok(index) => index,
            Err(e) => {
                return Err(e);
            },
        };
        let index3 = match get_index_by_character(c3) {
            Ok(index) => index,
            Err(e) => {
                return Err(e);
            },
        };
        let ghost before = decoded(bytes@, i as nat);
        push_decoded(&mut res, index0, index1, index2, index3);
        i += 1;
        proof {
            let group = decode_group(
                bytes@[4 * i - 4],
                bytes@[4 * i - 3],
                bytes@[4 * i - 2],
                bytes@[4 * i - 1],
            );
            assert(latin1(before + group) =~= latin1(before) + latin1(group));
        }
    }
    Ok(res)
}

} // verus!
