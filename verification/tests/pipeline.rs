use petrea::blanker::Blanker;
use petrea::native::{
    native_result, resolve_filename, TranspileNativeOptions, TranspileTask, TranspileUnitsTask,
};
use petrea::replace::ReplaceParams;
use petrea::source_text::SourceText;
use petrea::transcode::{lossy_copy, utf16_offset};
use petrea::transpile::{build_replaces, reject_replaced, reject_unusable, TranspileOutput};
use petrea::tree::derive_parents;

fn options(lang: Option<&str>, filename: Option<&str>) -> TranspileNativeOptions {
    TranspileNativeOptions {
        lang: lang.map(str::to_string),
        filename: filename.map(str::to_string),
    }
}

#[test]
fn filenames_resolve_from_options() {
    assert_eq!(resolve_filename(None), "input.ts");
    assert_eq!(resolve_filename(Some(&options(Some("tsx"), None))), "input.tsx");
    assert_eq!(resolve_filename(Some(&options(Some("ts"), None))), "input.ts");
    assert_eq!(
        resolve_filename(Some(&options(Some("tsx"), Some("a.mts")))),
        "a.mts"
    );
    let task = TranspileTask::new("x".to_string(), Some(&options(Some("tsx"), None)));
    assert_eq!(task.filename, "input.tsx");
    assert_eq!(task.input, "x");
    let task = TranspileUnitsTask::new(vec![0x61], None);
    assert_eq!(task.filename, "input.ts");
    assert_eq!(task.units, vec![0x61]);
}

#[test]
fn reports_cross_the_boundary_field_for_field() {
    let mut blanker = Blanker::new();
    blanker.report("TSEnumDeclaration", 3, 9);
    let result = native_result(TranspileOutput {
        code: "code".to_string(),
        unsupported: blanker.reports,
    });
    assert_eq!(result.code, "code");
    assert_eq!(result.unsupported.len(), 1);
    assert_eq!(result.unsupported[0].node_type, "TSEnumDeclaration");
    assert_eq!(result.unsupported[0].start, 3);
    assert_eq!(result.unsupported[0].end, 9);
}

#[test]
fn blank_statement_guards_asi_only_when_needed() {
    let input = "a\ntype T = 1;\nb";
    let mut blanker = Blanker::new();
    blanker.blank_statement(2, 14);
    assert_eq!(blanker.output.build(input), format!("a\n{}\nb", " ".repeat(11)));
    let mut blanker = Blanker::new();
    blanker.semicolon_needed = true;
    blanker.blank_statement(2, 14);
    assert_eq!(blanker.output.build(input), format!("a\n;{}\nb", " ".repeat(10)));
}

#[test]
fn blanker_ranges_and_markers() {
    let input = "f(a?: T, b)";
    let mut blanker = Blanker::new();
    blanker.blank_marker_char(Some((3, 4)));
    blanker.blank_range(4, 7);
    blanker.blank_exact_and_optional_trailing_comma(9, 10, None);
    assert_eq!(blanker.output.build(input), "f(a    ,  )");
    let mut blanker = Blanker::new();
    blanker.blank_exact_and_optional_trailing_comma(2, 7, Some(8));
    blanker.blank_marker_char(None);
    assert_eq!(blanker.output.build(input), "f(       b)");
}

#[test]
fn build_replaces_validates_and_drops_empty_tables() {
    assert!(matches!(build_replaces(None), Ok(None)));
    let empty = ReplaceParams {
        entries: Vec::new(),
        prevent_assignment: false,
        object_guards: true,
    };
    assert!(matches!(build_replaces(Some(empty)), Ok(None)));
    let bad = ReplaceParams {
        entries: vec![(String::new(), "1".to_string())],
        prevent_assignment: false,
        object_guards: false,
    };
    match build_replaces(Some(bad)) {
        Err(message) => assert_eq!(
            message,
            "invalid replace: invalid replace key \"\": must not be empty"
        ),
        Ok(_) => panic!("an empty key must be rejected"),
    }
    let good = ReplaceParams {
        entries: vec![("MODE".to_string(), "x".to_string())],
        prevent_assignment: false,
        object_guards: false,
    };
    match build_replaces(Some(good)) {
        Ok(Some(replaces)) => {
            assert_eq!(replaces.rewrite("const mode = MODE;").0, "const mode = x;")
        }
        _ => panic!("a valid table must be built"),
    }
}

#[test]
fn utf16_offsets_count_units() {
    assert_eq!(utf16_offset("abc", 2), 2);
    // ASCII input passes any offset through
    assert_eq!(utf16_offset("abc", 9), 9);
    // é is two bytes and one unit; 😀 four bytes and two units
    assert_eq!(utf16_offset("é😀x", 2), 1);
    assert_eq!(utf16_offset("é😀x", 6), 3);
    assert_eq!(utf16_offset("é😀x", 7), 4);
    // a position inside a character counts the characters before it
    assert_eq!(utf16_offset("é😀x", 4), 1);
    assert_eq!(utf16_offset("é😀x", 99), 4);
}

#[test]
fn lossy_copy_maps_units_to_bytes() {
    let units: Vec<u16> = "a\u{1F600}é".encode_utf16().collect();
    let (copy, map) = lossy_copy(&units);
    assert_eq!(copy, "a\u{1F600}é");
    assert_eq!(map, vec![0, 1, 3, 5, 7]);
    // a lone surrogate reads as U+FFFD in the copy
    let (copy, map) = lossy_copy(&[0x61, 0xD800, 0x0A]);
    assert_eq!(copy, "a\u{FFFD}\n");
    assert_eq!(map, vec![0, 1, 4, 5]);
    let (copy, map) = lossy_copy(&[]);
    assert_eq!(copy, "");
    assert_eq!(map, vec![0]);
}

#[test]
fn source_text_reads_original_units_when_lossless() {
    let units: Vec<u16> = vec![0x22, 0x61, 0xD800, 0x22];
    let (copy, map) = lossy_copy(&units);
    let lossless = SourceText {
        src: &copy,
        units: Some(&units),
        byte_to_unit: Some(&map),
    };
    assert_eq!(lossless.original_span_units(1, 5), vec![0x61, 0xD800]);
    assert_eq!(lossless.string_literal_value_units(0, 6), vec![0x61, 0xD800]);
    let plain = SourceText {
        src: "'a\\x41é'",
        units: None,
        byte_to_unit: None,
    };
    assert_eq!(plain.original_span_units(1, 6), "a\\x41".encode_utf16().collect::<Vec<u16>>());
    assert_eq!(plain.string_literal_value_units(0, 9), "aAé".encode_utf16().collect::<Vec<u16>>());
}

#[test]
fn parents_follow_child_links() {
    // 0 ─┬─ 1 ─── 2
    //    └─ 3
    let first_child = vec![1, 2, u32::MAX, u32::MAX];
    let next_sibling = vec![u32::MAX, 3, u32::MAX, u32::MAX];
    assert_eq!(
        derive_parents(&first_child, &next_sibling),
        vec![u32::MAX, 0, 1, 0]
    );
    assert_eq!(derive_parents(&[], &[]), Vec::<u32>::new());
}

#[test]
fn only_an_empty_program_with_errors_is_unusable() {
    assert_eq!(reject_unusable(0, 0, false, "a.ts", "", "x"), Ok(()));
    assert_eq!(reject_unusable(1, 0, true, "a.ts", "", "x"), Ok(()));
    assert_eq!(reject_unusable(0, 1, true, "a.ts", "", "x"), Ok(()));
    assert_eq!(
        reject_unusable(0, 0, true, "a.ts", " (in a retry)", "boom"),
        Err("failed to parse a.ts (in a retry):\nboom".to_string())
    );
}

#[test]
fn any_error_rejects_replaced_text() {
    assert_eq!(reject_replaced(false, "a.ts", "x"), Ok(()));
    assert_eq!(
        reject_replaced(true, "b.tsx", "E1\nE2"),
        Err("failed to parse b.tsx (after replace):\nE1\nE2".to_string())
    );
}
