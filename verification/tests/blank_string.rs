use petrea::blank_string::BlankString;
use petrea::transcode::lossy_copy;

#[test]
fn blank_preserves_newlines_and_length() {
    let input = "const a: number = 1";
    let mut bs = BlankString::default();
    // Blank the `: number` annotation (8 chars, no newlines).
    bs.blank(7, 15);
    assert_eq!(bs.build(input), format!("const a{} = 1", " ".repeat(8)));
}

#[test]
fn blank_preserves_crlf_and_replaces_ls_ps_with_spaces() {
    // Blanked regions keep CR/LF as line breaks; U+2028 and U+2029 become
    // single spaces. One space per UTF-16 unit keeps the length stable.
    let input = "a\nb\r\nc\u{2028}d\u{2029}e";
    let mut bs = BlankString::default();
    bs.blank(0, input.len() as u32);
    assert_eq!(bs.build(input), " \n \r\n     ");
}

#[test]
fn build_units_preserves_crlf_and_replaces_ls_ps_with_spaces() {
    // byte_to_unit: the parse-copy byte offset of each unit, plus the total.
    let units: Vec<u16> = "a\u{2028}b\u{2029}c".encode_utf16().collect();
    let byte_to_unit = [0u32, 1, 4, 5, 8, 9];
    let mut bs = BlankString::default();
    bs.blank(0, 9);
    assert_eq!(bs.build_units(&units, &byte_to_unit), vec![0x20; 5]);
}

#[test]
fn no_ranges_returns_input() {
    let bs = BlankString::default();
    assert_eq!(bs.build("abc"), "abc");
}

#[test]
fn build_owned_matches_build_on_the_fast_path() {
    let input = "const a: number = 1;\ninterface S { m(): void }";
    let make = || {
        let mut bs = BlankString::default();
        bs.blank(7, 15);
        bs.blank_but_start_with_semi(18, 46);
        bs
    };
    assert_eq!(make().build(input), make().build_owned(input.to_string()));
}

#[test]
fn build_owned_falls_back_on_text_overwrites() {
    let input = "enum E { A }";
    let make = || {
        let mut bs = BlankString::default();
        bs.override_range(
            0,
            11,
            "var E;(function (E) { E[E[\"A\"] = 0] = \"A\"; })(E || (E = {}));",
        );
        bs
    };
    assert_eq!(make().build(input), make().build_owned(input.to_string()));
    assert!(make().build(input).len() > input.len());
}

#[test]
fn build_owned_falls_back_on_non_ascii_blanks() {
    // U+00E9 is 2 UTF-8 bytes but 1 UTF-16 unit: blanking shrinks the output.
    let input = "a: é = 1";
    let mut bs = BlankString::default();
    bs.blank(2, 5);
    let slow = bs.build(input);
    assert_eq!(slow.len(), input.len() - 1);
    assert_eq!(bs.build_owned(input.to_string()), slow);
}

#[test]
fn build_owned_falls_back_on_overlapping_ranges() {
    let input = "let x: T = 1;";
    let mut bs = BlankString::default();
    bs.blank(4, 9);
    bs.blank(6, 12); // overlaps the first range
    let slow = bs.build(input);
    assert_eq!(bs.build_owned(input.to_string()), slow);
}

#[test]
fn build_units_owned_matches_build_units() {
    let units: Vec<u16> = "a\nb: c = 1".encode_utf16().collect();
    let byte_to_unit: Vec<u32> = (0..=units.len() as u32).collect();
    let mut bs = BlankString::default();
    bs.blank(3, 7);
    let slow = bs.build_units(&units, &byte_to_unit);
    assert_eq!(bs.build_units_owned(units, &byte_to_unit), slow);
}

#[test]
fn blanking_keeps_utf16_positions_on_the_string_path() {
    // blanks over astral, BMP and line-break characters, in source order
    let input = "let s: \u{1F600}é = 1;\r\nx\u{1F600}: T\n";
    let first_start = input.find(':').unwrap() as u32;
    let first_end = input.find(" =").unwrap() as u32;
    let second_start = input.rfind(':').unwrap() as u32;
    let second_end = input.len() as u32 - 1;
    let mut bs = BlankString::default();
    bs.blank(first_start, first_end);
    bs.blank(second_start, second_end);
    let out = bs.build(input);
    let before: Vec<u16> = input.encode_utf16().collect();
    let after: Vec<u16> = out.encode_utf16().collect();
    assert_eq!(after.len(), before.len());
    for (k, unit) in after.iter().enumerate() {
        assert!(*unit == before[k] || *unit == 0x20);
        if before[k] == 0x0A || before[k] == 0x0D {
            assert_eq!(*unit, before[k]);
        }
    }
    assert_eq!(out, "let s      = 1;\r\nx\u{1F600}   \n");
}

#[test]
fn blanker_blanks_spans_and_annotations() {
    let input = "let a: T = f(b as U);";
    let mut blanker = petrea::blanker::Blanker::new();
    blanker.blank_type_annotation((5, 8));
    blanker.blank_span((14, 19));
    assert_eq!(blanker.output.build(input), "let a    = f(b     );");
    assert!(blanker.reports.is_empty());
}

#[test]
fn both_build_paths_give_the_same_text() {
    // Blanks, a marker and a text splice over non-ASCII and astral text,
    // applied to the UTF-8 bytes and to the UTF-16 units mapped through the
    // parse copy's byte offsets.
    let input = "let é: T = '😀';\n(x as Z); y!.w";
    let units: Vec<u16> = input.encode_utf16().collect();
    let (copy, map) = lossy_copy(&units);
    assert_eq!(copy, input);
    let colon = input.find(':').unwrap() as u32;
    let eq = input.find(" =").unwrap() as u32;
    let quote = input.find('\'').unwrap() as u32;
    let paren = input.find('(').unwrap() as u32;
    let as_kw = input.find(" as").unwrap() as u32;
    let bang = input.find('!').unwrap() as u32;
    let mut bs = BlankString::default();
    bs.blank(colon, eq);
    bs.override_range(quote, input.len() as u32 - 15, "\"ok\u{1F600}\"");
    bs.blank_but_start_with_semi(paren, paren + 1);
    bs.blank(as_kw, as_kw + 5);
    bs.blank(bang, bang + 1);
    let text = bs.build(input);
    let text_units: Vec<u16> = text.encode_utf16().collect();
    assert_eq!(bs.build_units(&units, &map), text_units);
}

#[test]
fn a_start_hidden_under_an_earlier_edit_is_never_read() {
    // the second blank starts inside `é` but lies wholly under the first,
    // so only its end (a character boundary) is ever read
    let input = "aé b";
    let mut bs = BlankString::default();
    bs.blank(0, 4);
    bs.blank(2, 3);
    assert_eq!(bs.build(input), "    b");
}

#[test]
fn large_ascii_input_keeps_its_byte_map() {
    let units: Vec<u16> = vec![0x41; 70_000];
    let (copy, map) = lossy_copy(&units);
    assert_eq!(copy.len(), 70_000);
    assert_eq!(map.len(), 70_001);
    assert_eq!(map[69_999], 69_999);
}

#[test]
fn markers_and_blanks_keep_every_utf16_position() {
    // `f(x as T);` style erasure with a marker: every UTF-16 unit stays.
    let input = "let é = (a as Ü)\u{1F600};\nnext";
    let mut bs = BlankString::default();
    let open = input.find('(').unwrap() as u32;
    let as_kw = input.find(" as").unwrap() as u32;
    let close = input.find(')').unwrap() as u32;
    bs.blank_but_start_with_open_paren(open, open + 1);
    bs.blank(as_kw, close);
    let out = bs.build(input);
    assert_eq!(out.encode_utf16().count(), input.encode_utf16().count());
    assert_eq!(out, "let é = (a     )\u{1F600};\nnext");
}

#[test]
fn one_text_edit_splices_between_the_slices() {
    let input = "let a = E.B;";
    let mut bs = BlankString::default();
    bs.override_range(8, 11, "1 /* B */");
    assert_eq!(bs.build(input), format!("{}{}{}", &input[..8], "1 /* B */", &input[11..]));
}

#[test]
fn an_empty_blank_inside_a_character_writes_nothing() {
    // `é` spans bytes 1..3; the empty blank at 2 only splits the copy
    let input = "aéb";
    let mut bs = BlankString::default();
    bs.blank(2, 2);
    bs.blank(3, 4);
    assert_eq!(bs.build(input), "aé ");
    let mut owned = BlankString::default();
    owned.blank(2, 2);
    owned.blank(3, 4);
    assert_eq!(owned.build_owned(input.to_string()), "aé ");
}

#[test]
fn both_build_paths_agree_around_an_empty_blank_inside_a_character() {
    let input = "a\u{1F600}b";
    let units: Vec<u16> = input.encode_utf16().collect();
    let (copy, map) = lossy_copy(&units);
    let mut bs = BlankString::default();
    bs.blank(3, 3);
    bs.blank(5, 6);
    let text = bs.build(&copy);
    assert_eq!(text, "a\u{1F600} ");
    assert_eq!(bs.build_units(&units, &map), text.encode_utf16().collect::<Vec<u16>>());
}
