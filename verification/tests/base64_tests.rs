use datakit::base64::{base64_decode, base64_encode, get_index_by_character, is_base64_char, Cause};

const LONG_TEXT: &str = "\
    Man is distinguished, not only by his reason, \
    but by this singular passion from other animals, \
    which is a lust of the mind, that by a perseverance \
    of delight in the continued and indefatigable generation \
    of knowledge, exceeds the short vehemence of any carnal pleasure.";

const LONG_CODE: &str = "TWFuIGlzIGRpc3Rpbmd1aXNoZWQsIG5vdCBv\
    bmx5IGJ5IGhpcyByZWFzb24sIGJ1dCBieSB0aGlzIHNpbmd1bGFyIHBhc3\
    Npb24gZnJvbSBvdGhlciBhbmltYWxzLCB3aGljaCBpcyBhIGx1c3Qgb2Ygd\
    GhlIG1pbmQsIHRoYXQgYnkgYSBwZXJzZXZlcmFuY2Ugb2YgZGVsaWdodCBp\
    biB0aGUgY29udGludWVkIGFuZCBpbmRlZmF0aWdhYmxlIGdlbmVyYXRpb24g\
    b2Yga25vd2xlZGdlLCBleGNlZWRzIHRoZSBzaG9ydCB2ZWhlbWVuY2Ugb2YgY\
    W55IGNhcm5hbCBwbGVhc3VyZS4=";

#[test]
fn test_standard_encode() {
    let input = "";
    let output = base64_encode(input);
    assert_eq!(output.as_str(), "");

    let input = "Man";
    let output = base64_encode(input);
    assert_eq!(output.as_str(), "TWFu");

    let input = "A";
    let output = base64_encode(input);
    assert_eq!(output.as_str(), "QQ==");

    let input = "BC";
    let output = base64_encode(input);
    assert_eq!(output.as_str(), "QkM=");

    let input = "e.";
    let output = base64_encode(input);
    assert_eq!(output.as_str(), "ZS4=");

    // The three bytes of this text, written here one character per byte.
    let bytes: Vec<u8> = "ä¸¥".chars().map(|c| c as u8).collect();
    let input = String::from_utf8(bytes).unwrap();
    let output = base64_encode(input.as_str());
    assert_eq!(output.as_str(), "5Lil");

    let output = base64_encode(LONG_TEXT);
    assert_eq!(output.as_str(), LONG_CODE);
}

#[test]
fn test_standard_decode() {
    let input = "";
    let output = base64_decode(input).unwrap();
    assert_eq!(output.as_str(), "");

    let input = "TWFu";
    let output = base64_decode(input).unwrap();
    assert_eq!(output.as_str(), "Man");

    let input = "QQ==";
    let output = base64_decode(input).unwrap();
    assert_eq!(output.as_str(), "A");

    let input = "QkM=";
    let output = base64_decode(input).unwrap();
    assert_eq!(output.as_str(), "BC");

    let input = "ZS4=";
    let output = base64_decode(input).unwrap();
    assert_eq!(output.as_str(), "e.");

    let output = base64_decode(LONG_CODE).unwrap();
    assert_eq!(output.as_str(), LONG_TEXT);
}

#[test]
fn test_standard_decode_error() {
    let input = "hello";
    let output = base64_decode(input);
    assert_eq!(output.is_err(), true);
    let err = output.unwrap_err();
    assert_eq!(err.cause, Cause::IncorrectPadding);

    let input = "=123";
    let output = base64_decode(input);
    assert_eq!(output.is_err(), true);
    let err = output.unwrap_err();
    assert_eq!(err.cause, Cause::IncorrectPadding);

    let input = "hex123=1";
    let output = base64_decode(input);
    assert_eq!(output.is_err(), true);
    let err = output.unwrap_err();
    assert_eq!(err.cause, Cause::IncorrectPadding);
}

#[test]
fn decode_reports_each_kind_of_bad_text() {
    assert_eq!(base64_decode("TWF").unwrap_err().desc, "length of base64 string should be divisible by 4");
    assert_eq!(base64_decode("T!Fu").unwrap_err().desc, "string contains invalid character");
    assert_eq!(base64_decode("TWF!").unwrap_err().desc, "padding character must be '='");
    assert_eq!(base64_decode("TW=u").unwrap_err().desc, "padding must be either '=' or '=='");
    assert_eq!(base64_decode("TW=u").unwrap_err().cause, Cause::IncorrectPadding);
}

#[test]
fn decode_takes_bytes_outside_ascii_as_invalid() {
    let result = base64_decode("aaaaa\u{20ac}");
    assert_eq!(result.unwrap_err().cause, Cause::IncorrectPadding);
}

#[test]
fn decode_accepts_the_url_safe_characters() {
    assert_eq!(base64_encode("~~~").as_str(), "fn5+");
    assert_eq!(base64_decode("fn5+").unwrap().as_str(), "~~~");
    assert_eq!(base64_decode("fn5-").unwrap().as_str(), "~~~");
    assert_eq!(base64_encode("???").as_str(), "Pz8/");
    assert_eq!(base64_decode("Pz8_").unwrap().as_str(), "???");
}

#[test]
fn decode_gives_one_character_per_byte_and_skips_zero_bytes() {
    let decoded = base64_decode("5Lil").unwrap();
    let codes: Vec<u32> = decoded.chars().map(|c| c as u32).collect();
    assert_eq!(codes, vec![0xe4, 0xb8, 0xa5]);
    // "QQBC" holds the bytes 0x41 0x00 0x42.
    assert_eq!(base64_decode("QQBC").unwrap().as_str(), "AB");
}

#[test]
fn index_of_every_character() {
    let alphabet = "ABCDEFGHIJKLMNOPQRSTUVWXYZabcdefghijklmnopqrstuvwxyz0123456789+/";
    for (i, c) in alphabet.bytes().enumerate() {
        assert_eq!(get_index_by_character(c).unwrap(), i as u8);
        assert!(is_base64_char(c));
    }
    assert_eq!(get_index_by_character(b'-').unwrap(), 62);
    assert_eq!(get_index_by_character(b'_').unwrap(), 63);
    assert_eq!(get_index_by_character(b'=').unwrap(), 0);
    assert!(!is_base64_char(b'='));
    assert!(!is_base64_char(b' '));
}

#[test]
fn index_of_a_character_outside_the_alphabet() {
    let err = get_index_by_character(b'!').unwrap_err();
    assert_eq!(err.cause, Cause::IncorrectCharacter);
    assert_eq!(err.desc, "character ! is invalid base64 character");
}

#[test]
fn encode_then_decode_gives_the_text_back() {
    for text in ["a", "ab", "abc", "abcd", "hello world", LONG_TEXT] {
        assert_eq!(base64_decode(base64_encode(text).as_str()).unwrap().as_str(), text);
    }
}
