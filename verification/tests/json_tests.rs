use datakit::json::{dumps, loads, try_loads, JValue};

#[test]
fn the_three_words() {
    assert_eq!(try_loads("true"), Some(JValue::JBoolean(true)));
    assert_eq!(try_loads("false"), Some(JValue::JBoolean(false)));
    assert_eq!(try_loads("null"), Some(JValue::JNull));
    assert_eq!(loads("true"), JValue::JBoolean(true));
}

#[test]
fn punctuation_and_white_space_are_skipped() {
    assert_eq!(try_loads(" [ false ] "), Some(JValue::JBoolean(false)));
    assert_eq!(try_loads("\t\r\n{\"null\"}"), Some(JValue::JNull));
    assert_eq!(try_loads("-5"), Some(JValue::JNumber(b"5".to_vec())));
}

#[test]
fn a_number_runs_to_the_end_of_the_text() {
    assert_eq!(try_loads("12.5"), Some(JValue::JNumber(b"12.5".to_vec())));
    assert_eq!(try_loads("[1,2]"), Some(JValue::JNumber(b"1,2]".to_vec())));
    assert_eq!(try_loads("true 7 false"), None);
    assert_eq!(try_loads(" 7 false"), Some(JValue::JNumber(b"7 false".to_vec())));
}

#[test]
fn texts_without_a_value() {
    assert_eq!(try_loads(""), None);
    assert_eq!(try_loads("  , "), None);
    assert_eq!(try_loads("tru"), None);
    assert_eq!(try_loads("truth"), None);
    assert_eq!(try_loads("fals"), None);
    assert_eq!(try_loads("nul"), None);
    assert_eq!(try_loads("x"), None);
    assert_eq!(try_loads("\"abc\""), None);
    assert_eq!(try_loads("true false"), None);
    assert_eq!(try_loads("\u{e9}"), None);
}

#[test]
fn dumps_gives_the_empty_text() {
    assert_eq!(dumps(&JValue::JNull), "");
    assert_eq!(dumps(&JValue::JArray(vec![JValue::JBoolean(true)])), "");
}
