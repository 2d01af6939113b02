use petrea::literal_text::{
    decode_template_units, decode_units, hex_digit, hex_value, json_quote, json_quote_utf16,
};

fn units(s: &str) -> Vec<u16> {
    s.encode_utf16().collect()
}

#[test]
fn decodes_simple_escapes() {
    assert_eq!(decode_units(&units(r"a\nb\tc")), units("a\nb\tc"));
    assert_eq!(decode_units(&units(r#"\"\'\\"#)), units("\"'\\"));
    assert_eq!(decode_units(&units(r"\b\f\v\r")), units("\u{8}\u{c}\u{b}\r"));
    // an unknown escape stands for the character itself
    assert_eq!(decode_units(&units(r"\q")), units("q"));
}

#[test]
fn decodes_hex_and_unicode_escapes() {
    assert_eq!(decode_units(&units(r"\x41\u0042")), units("AB"));
    assert_eq!(decode_units(&units(r"\u{1F600}")), units("\u{1F600}"));
    // an escaped lone surrogate stays one unit
    assert_eq!(decode_units(&units(r"\uD800")), vec![0xD800]);
    assert_eq!(decode_units(&units(r"\u{D800}")), vec![0xD800]);
    // malformed escapes keep their letter
    assert_eq!(decode_units(&units(r"\xZ1")), units("xZ1"));
    assert_eq!(decode_units(&units(r"\u{110000}")), units("u{110000}"));
    assert_eq!(decode_units(&units(r"\u12")), units("u12"));
}

#[test]
fn decodes_legacy_octal_escapes() {
    assert_eq!(decode_units(&units(r"\101")), units("A"));
    assert_eq!(decode_units(&units(r"\0")), vec![0]);
    // a digit 4-7 takes at most one more digit
    assert_eq!(decode_units(&units(r"\477")), vec![0o47, 0x37]);
    assert_eq!(decode_units(&units(r"\377")), vec![0xFF]);
}

#[test]
fn line_continuations_vanish() {
    assert_eq!(decode_units(&units("a\\\nb")), units("ab"));
    assert_eq!(decode_units(&units("a\\\r\nb")), units("ab"));
    assert_eq!(decode_units(&units("a\\\u{2028}b")), units("ab"));
}

#[test]
fn a_trailing_backslash_survives() {
    assert_eq!(decode_units(&units("a\\")), units("a\\"));
}

#[test]
fn raw_lone_surrogates_pass_through() {
    assert_eq!(decode_units(&[0x61, 0xDC00, 0x62]), vec![0x61, 0xDC00, 0x62]);
}

#[test]
fn template_quasis_normalize_line_breaks() {
    assert_eq!(decode_template_units(&units("a\r\nb\rc")), units("a\nb\nc"));
    // an escaped CR stays CR
    assert_eq!(decode_template_units(&units(r"a\rb")), units("a\rb"));
    // outside templates literal CRs are kept
    assert_eq!(decode_units(&units("a\r\nb")), units("a\r\nb"));
}

#[test]
fn hex_helpers_read_digits() {
    assert_eq!(hex_digit(0x30), Some(0));
    assert_eq!(hex_digit(0x46), Some(15));
    assert_eq!(hex_digit(0x66), Some(15));
    assert_eq!(hex_digit(0x67), None);
    assert_eq!(hex_value(&units("00fF"), 0, 4), Some((0xFF, 4)));
    assert_eq!(hex_value(&units("1g"), 0, 2), None);
    assert_eq!(hex_value(&units("1"), 0, 2), None);
}

#[test]
fn json_quote_utf16_escapes_like_json_stringify() {
    assert_eq!(json_quote_utf16(&units("a\"b\\c")), "\"a\\\"b\\\\c\"");
    assert_eq!(json_quote_utf16(&units("\n\t\u{1}")), "\"\\n\\t\\u0001\"");
    assert_eq!(json_quote_utf16(&units("\u{1F600}")), "\"\u{1F600}\"");
    assert_eq!(json_quote_utf16(&[0xD800]), "\"\\ud800\"");
    assert_eq!(json_quote_utf16(&[0xDC00, 0x41]), "\"\\udc00A\"");
    assert_eq!(json_quote_utf16(&[]), "\"\"");
}

#[test]
fn json_quote_escapes_like_json_stringify() {
    assert_eq!(json_quote("A"), "\"A\"");
    assert_eq!(json_quote("a\"b"), "\"a\\\"b\"");
    assert_eq!(json_quote("\u{8}\u{c}\r\u{1f}"), "\"\\b\\f\\r\\u001f\"");
    assert_eq!(json_quote("é\u{1F600}"), "\"é\u{1F600}\"");
}

fn between_quotes(quoted: &str) -> Vec<u16> {
    let all = units(quoted);
    assert!(all.len() >= 2);
    all[1..all.len() - 1].to_vec()
}

#[test]
fn json_quote_utf16_reads_back_as_its_input() {
    let cases: Vec<Vec<u16>> = vec![
        units("plain"),
        units("a\"b\\c\n\t\u{1}\u{7f}"),
        vec![0xD800, 0x41, 0xDC00],
        units("\u{1F600}é"),
        vec![],
    ];
    for case in cases {
        let quoted = json_quote_utf16(&case);
        assert_eq!(decode_units(&between_quotes(&quoted)), case);
    }
}

#[test]
fn json_quote_reads_back_as_the_string_units() {
    for s in ["", "x", "quote\" and \\ slash", "\u{0}\u{1f}\u{2028}", "é\u{1F600}"] {
        let quoted = json_quote(s);
        assert_eq!(decode_units(&between_quotes(&quoted)), units(s));
    }
}

#[test]
fn json_quote_utf16_of_a_string_is_json_quote_of_it() {
    for s in ["", "plain", "q\"b\\s\n\r\t\u{8}\u{c}\u{1}", "é\u{1F600}\u{2028}", "\u{1f}\u{7f}"] {
        assert_eq!(json_quote_utf16(&units(s)), json_quote(s));
    }
}
