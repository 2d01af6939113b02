use petrea::replace::{ReplaceOptions, Replaces};

fn build(entries: &[(&str, &str)], options: ReplaceOptions) -> Replaces {
    let list: Vec<(String, String)> = entries
        .iter()
        .map(|(k, v)| (k.to_string(), v.to_string()))
        .collect();
    match Replaces::new(&list, options) {
        Ok(replaces) => replaces,
        Err(error) => panic!("valid entries: {error}"),
    }
}

fn scan(entries: &[(&str, &str)], src: &str) -> Vec<(u32, u32, String)> {
    scan_with(entries, src, ReplaceOptions::default())
}

fn scan_with(
    entries: &[(&str, &str)],
    src: &str,
    options: ReplaceOptions,
) -> Vec<(u32, u32, String)> {
    build(entries, options).scan(src)
}

fn rewrite(entries: &[(&str, &str)], src: &str) -> (String, usize) {
    build(entries, ReplaceOptions::default()).rewrite(src)
}

/// [`Replaces::rewrite_units`] against the original units of `src`, with
/// the raw lone surrogate at `surrogate_at` swapped in (0 = none).
fn rewrite_units(entries: &[(&str, &str)], src: &str, surrogate_at: usize) -> (Vec<u16>, usize) {
    let mut units: Vec<u16> = src.encode_utf16().collect();
    if surrogate_at > 0 {
        units[surrogate_at] = 0xD800;
    }
    build(entries, ReplaceOptions::default()).rewrite_units(&units)
}

fn guards_on() -> ReplaceOptions {
    ReplaceOptions {
        prevent_assignment: false,
        object_guards: true,
    }
}

fn prevent_on() -> ReplaceOptions {
    ReplaceOptions {
        prevent_assignment: true,
        object_guards: false,
    }
}

#[test]
fn scans_leftmost_longest_without_overlap() {
    assert_eq!(scan(&[("KEY", "v")], "0 KEY 0"), [(2, 5, "v".into())]);
    assert_eq!(
        scan(&[("KEY", "v")], "KEY KEY"),
        [(0, 3, "v".into()), (4, 7, "v".into())]
    );
    assert_eq!(scan(&[("KEY", "v")], "xKEYx"), vec![]);
    assert_eq!(scan(&[("KEY", "v")], "_KEY"), vec![]);
    assert_eq!(scan(&[("KEY", "v")], "$KEY"), vec![]);
    assert_eq!(scan(&[("KEY", "v")], "KEY$"), vec![]);
    assert_eq!(
        scan(&[("a", "1"), ("a.b", "2"), ("a.b.c", "3")], "a.b.c"),
        [(0, 5, "3".into())]
    );
    assert_eq!(
        scan(&[("a", "1"), ("a.b", "2")], "a.b a"),
        [(0, 3, "2".into()), (4, 5, "1".into())]
    );
}

#[test]
fn right_boundary_kills_a_member_dot() {
    assert_eq!(scan(&[("a", "1")], "a.b"), vec![]);
    assert_eq!(scan(&[("a", "1")], "a + b"), [(0, 1, "1".into())]);
    // only a plain `.` kills the match: the `?` of `?.` is not one
    assert_eq!(scan(&[("a", "1")], "a?.b"), [(0, 1, "1".into())]);
}

#[test]
fn unicode_bounds_judge_per_char() {
    assert_eq!(scan(&[("KEY", "v")], "éKEY"), vec![]);
    assert_eq!(scan(&[("KEY", "v")], "λKEY"), vec![]);
    assert_eq!(scan(&[("KEY", "v")], "变KEY"), vec![]);
    assert_eq!(scan(&[("KEY", "v")], "\u{1F600}KEY"), vec![]);
    // a C1 control is non-ASCII yet outside the word class
    assert_eq!(scan(&[("KEY", "v")], "\u{9F}KEY"), [(2, 5, "v".into())]);
}

#[test]
fn non_ascii_keys_probe_their_own_bucket_on_both_paths() {
    assert_eq!(scan(&[("变量", "1")], "变量 + x"), [(0, 6, "1".into())]);
    assert_eq!(
        scan(&[("\u{1F680}x", "1")], "\u{1F680}x"),
        [(0, 5, "1".into())]
    );
}

#[test]
fn rewrite_splices_every_hit_exactly() {
    let (rewritten, hits) = rewrite(&[("FLAG", "1")], "log(FLAG)");
    assert_eq!(hits, 1);
    assert_eq!(rewritten, "log(1)");

    let (rewritten, _) = rewrite(&[("FLAG", "λ")], "log(FLAG)");
    assert_eq!(rewritten, "log(λ)");

    let (rewritten, _) = rewrite(&[("FLAG", "longervalue")], "log(FLAG)");
    assert_eq!(rewritten, "log(longervalue)");

    let (rewritten, _) = rewrite(&[("FLAG", "")], "log(FLAG)");
    assert_eq!(rewritten, "log()");

    let (rewritten, _) = rewrite(&[("变量", "1")], "log(变量)");
    assert_eq!(rewritten, "log(1)");

    let (rewritten, _) = rewrite(&[("FLAG", "1")], "/* FLAG */");
    assert_eq!(rewritten, "/* 1 */");
    let (rewritten, _) = rewrite(&[("FLAG", "1")], "const s = \"FLAG\";");
    assert_eq!(rewritten, "const s = \"1\";");
    let (rewritten, _) = rewrite(&[("FLAG", "1")], "const t = `${FLAG}`;");
    assert_eq!(rewritten, "const t = `${1}`;");

    let (rewritten, hits) = rewrite(&[("f(\"FLAG", "f(\"X")], "f(\"FLAG\");");
    assert_eq!(hits, 1);
    assert_eq!(rewritten, "f(\"X\");");
}

#[test]
fn rewrite_splices_a_user_padded_tail_verbatim() {
    let (rewritten, hits) = rewrite(&[("FLAG", "1   ")], "log(FLAG);");
    assert_eq!(hits, 1);
    assert_eq!(rewritten, "log(1   );");
    assert_eq!(rewritten.len(), "log(FLAG);".len());
}

#[test]
fn rewrite_with_zero_hits_returns_no_text() {
    let (rewritten, hits) = rewrite(&[("FLAG", "1")], "log(KEY)");
    assert_eq!(hits, 0);
    assert_eq!(rewritten, "");
}

#[test]
fn rewrite_units_splices_exactly() {
    let (rewritten, hits) = rewrite_units(&[("FLAG", "1")], "log(FLAG)", 0);
    assert_eq!(hits, 1);
    assert_eq!(
        String::from_utf16(&rewritten).expect("valid units"),
        "log(1)"
    );

    // a raw lone surrogate never answers a U+FFFD key
    let (rewritten, hits) = rewrite_units(&[("\u{FFFD}", "X")], "log(a\u{FFFD}b)", 5);
    assert_eq!(hits, 0);
    assert_eq!(rewritten, Vec::<u16>::new());

    // a genuine U+FFFD unit in the same file still replaces
    let (rewritten, hits) = rewrite_units(&[("\u{FFFD}", "X")], "log(1 + \u{FFFD})", 0);
    assert_eq!(hits, 1);
    assert_eq!(
        String::from_utf16(&rewritten).expect("valid units"),
        "log(1 + X)"
    );

    let (rewritten, hits) = rewrite_units(&[("FLAG", "1")], "const s = \"FLAG\";", 0);
    assert_eq!(hits, 1);
    assert_eq!(
        String::from_utf16(&rewritten).expect("valid units"),
        "const s = \"1\";"
    );
}

#[test]
fn rewrite_units_probes_the_masked_bucket_for_an_astral_key() {
    let src = "const s = \"\u{1F680}x\";";
    let units: Vec<u16> = src.encode_utf16().collect();
    let (rewritten, hits) =
        build(&[("\u{1F680}x", "Y")], ReplaceOptions::default()).rewrite_units(&units);
    assert_eq!(hits, 1);
    assert_eq!(
        String::from_utf16(&rewritten).expect("valid units"),
        "const s = \"Y\";"
    );
}

#[test]
fn prevent_assignment_blocks_lookahead_shapes() {
    let options = prevent_on();
    assert_eq!(scan_with(&[("KEY", "v")], "KEY = 1", options), vec![]);
    assert_eq!(scan_with(&[("KEY", "v")], "KEY => 1", options), vec![]);
    assert_eq!(scan_with(&[("KEY", "v")], "KEY\t= 1", options), vec![]);
    assert_eq!(
        scan_with(&[("KEY", "v")], "KEY == 1", options),
        [(0, 3, "v".into())]
    );
    assert_eq!(
        scan_with(&[("KEY", "v")], "KEY === 1", options),
        [(0, 3, "v".into())]
    );
    assert_eq!(
        scan_with(&[("KEY", "v")], "KEY += 1", options),
        [(0, 3, "v".into())]
    );
    assert_eq!(
        scan_with(&[("KEY", "v")], "KEY \u{FEFF}= 1", options),
        vec![]
    );
    assert_eq!(
        scan_with(&[("KEY", "v")], "KEY\u{FEFF}= 1", options),
        vec![]
    );
    assert_eq!(scan_with(&[("KEY", "v")], "KEY\u{A0}= 1", options), vec![]);
    assert_eq!(
        scan_with(&[("KEY", "v")], "KEY\u{85}= 1", options),
        [(0, 3, "v".into())]
    );
    assert_eq!(
        scan_with(&[("KEY", "v")], "KEY =", options),
        [(0, 3, "v".into())]
    );
    assert_eq!(
        scan_with(&[("KEY", "v")], "KEY", options),
        [(0, 3, "v".into())]
    );
    assert_eq!(scan(&[("KEY", "v")], "KEY = 1"), [(0, 3, "v".into())]);
}

#[test]
fn prevent_assignment_blocks_declaration_prefixes() {
    let options = prevent_on();
    assert_eq!(scan_with(&[("KEY", "v")], "const KEY = 1", options), vec![]);
    assert_eq!(scan_with(&[("KEY", "v")], "let KEY", options), vec![]);
    assert_eq!(scan_with(&[("KEY", "v")], "var\nKEY", options), vec![]);
    assert_eq!(
        scan_with(&[("KEY", "v")], "const \u{FEFF} KEY", options),
        vec![]
    );
    assert_eq!(
        scan_with(&[("KEY", "v")], "xconst KEY", options),
        [(7, 10, "v".into())]
    );
    assert_eq!(
        scan_with(&[("const", "v")], "x const", options),
        [(2, 7, "v".into())]
    );
}

#[test]
fn object_guards_derive_typeof_prefixes() {
    let options = guards_on();
    assert_eq!(
        scan_with(&[("a.b.c", "X")], "typeof a", options),
        [(0, 8, "\"object\"".into())]
    );
    assert_eq!(
        scan_with(&[("e\u{0301}.x", "X")], "typeof e\u{0301}", options),
        [(0, 10, "\"object\"".into())]
    );
    assert_eq!(
        scan_with(&[("a.b.c", "X")], "typeof a.b", options),
        [(0, 10, "\"object\"".into())]
    );
    assert_eq!(
        scan_with(&[("a.b.c", "X")], "typeof a.b.c.d", options),
        vec![]
    );
    assert_eq!(scan_with(&[("a.b", "X")], "typeof  a", options), vec![]);
    assert_eq!(scan(&[("a.b", "X")], "typeof a"), vec![]);
}

#[test]
fn object_guard_user_keys_win_over_derived() {
    assert_eq!(
        scan_with(&[("a.b", "X"), ("typeof a", "U")], "typeof a", guards_on()),
        [(0, 8, "U".into())]
    );
}

#[test]
fn object_guard_conflict_reads_the_full_derived_key() {
    let options = guards_on();
    assert_eq!(
        scan_with(&[("a", "X"), ("a.b", "Y")], "typeof a", options),
        [(0, 8, "\"object\"".into())]
    );
    assert_eq!(
        scan_with(&[("a", "X"), ("a.b", "Y")], "a;", options),
        [(0, 1, "X".into())]
    );
    assert_eq!(
        scan_with(&[("a.b", "Y"), ("typeof a", "T")], "typeof a", options),
        [(0, 8, "T".into())]
    );
}

#[test]
fn object_guards_derive_only_for_legal_member_chains() {
    let guards = |key: &str| {
        build(&[(key, "X")], guards_on())
            .entry_keys()
            .into_iter()
            .filter(|key| key.starts_with("typeof "))
            .collect::<Vec<String>>()
    };
    assert_eq!(guards("a.b.c"), ["typeof a", "typeof a.b"]);
    assert_eq!(
        guards("process.env.NODE_ENV"),
        ["typeof process", "typeof process.env"]
    );
    assert_eq!(guards("变量.env"), ["typeof 变量"]);
    assert_eq!(guards("e\u{0301}.x"), ["typeof e\u{0301}"]);
    assert_eq!(guards("a\u{200C}b.c"), ["typeof a\u{200C}b"]);
    assert_eq!(guards("x\u{200D}y.z"), ["typeof x\u{200D}y"]);
    assert!(guards("\u{200C}a.b").is_empty());
    assert!(guards("a.\u{200D}b").is_empty());
    assert!(guards("a").is_empty());
    assert!(guards("a.b()").is_empty());
    assert!(guards("a-b.c").is_empty());
    assert!(guards("a..b").is_empty());
    assert!(guards("a.b.").is_empty());
    assert!(guards(".a.b").is_empty());
    assert!(guards("a.1b").is_empty());
}

#[test]
fn object_guard_derivation_dedupes_across_keys() {
    let replaces = build(
        &[
            ("process.env.A", "1"),
            ("process.env.B", "2"),
            ("process.versions.node", "3"),
        ],
        guards_on(),
    );
    let keys = replaces.entry_keys();
    assert_eq!(keys.len(), 6);
    let guard_keys = keys
        .iter()
        .map(|key| key.as_str())
        .filter(|key| key.starts_with("typeof "))
        .collect::<Vec<_>>();
    assert_eq!(
        guard_keys,
        [
            "typeof process",
            "typeof process.env",
            "typeof process.versions"
        ]
    );
}

#[test]
fn rejects_empty_keys() {
    let list = vec![
        ("".to_string(), "v".to_string()),
        ("x".to_string(), "v".to_string()),
    ];
    let error = match Replaces::new(&list, ReplaceOptions::default()) {
        Ok(_) => panic!("an empty key must be rejected"),
        Err(error) => error,
    };
    assert_eq!(error, "invalid replace key \"\": must not be empty");
}

#[test]
fn buckets_filter_by_first_byte() {
    let replaces = build(&[("z", "1")], ReplaceOptions::default());
    assert_eq!(
        replaces
            .scan("z z a")
            .into_iter()
            .map(|(start, end, _)| (start, end))
            .collect::<Vec<_>>(),
        [(0, 1), (2, 3)]
    );
    assert!(replaces.scan_hits("abc").is_empty());
    let replaces = build(&[("a", "1"), ("ab", "2")], ReplaceOptions::default());
    assert_eq!(
        replaces
            .scan_hits("ab")
            .into_iter()
            .map(|hit| (hit.start, hit.end))
            .collect::<Vec<_>>(),
        [(0, 2)]
    );
}

#[test]
fn entries_sort_into_the_same_table_whatever_their_order() {
    let forward = build(&[("b", "2"), ("a", "1"), ("c", "3")], ReplaceOptions::default());
    let backward = build(&[("c", "3"), ("a", "1"), ("b", "2")], ReplaceOptions::default());
    assert_eq!(forward.entry_keys(), ["a", "b", "c"]);
    assert_eq!(backward.entry_keys(), ["a", "b", "c"]);
    assert_eq!(forward.scan("c b a"), backward.scan("c b a"));
}

#[test]
fn an_empty_table_replaces_nothing() {
    let replaces = build(&[], ReplaceOptions::default());
    assert!(replaces.is_empty());
    assert_eq!(replaces.rewrite("any text"), (String::new(), 0));
    assert_eq!(replaces.rewrite_units(&[0x61, 0x62]), (Vec::new(), 0));
    assert!(!build(&[("a", "1")], ReplaceOptions::default()).is_empty());
}

#[test]
fn rewrite_units_splices_non_ascii_values_as_utf16() {
    let units: Vec<u16> = "x FLAG y".encode_utf16().collect();
    let (rewritten, hits) =
        build(&[("FLAG", "\u{1F600}")], ReplaceOptions::default()).rewrite_units(&units);
    assert_eq!(hits, 1);
    let expected: Vec<u16> = "x \u{1F600} y".encode_utf16().collect();
    assert_eq!(rewritten, expected);
}

#[test]
fn string_and_units_paths_agree_on_astral_text() {
    let entries = [("K", "1"), ("\u{1F600}x", "smile"), ("é", "e"), ("const", "let")];
    let options = ReplaceOptions { prevent_assignment: true, object_guards: false };
    let src = "K\u{1F600}x \u{1F600}x é const K = 2; K\u{1F600} (K) é.K";
    let table = build(&entries, options);
    let (text, text_hits) = table.rewrite(src);
    let units: Vec<u16> = src.encode_utf16().collect();
    let (out_units, unit_hits) = table.rewrite_units(&units);
    assert_eq!(text_hits, unit_hits);
    assert!(text_hits > 0);
    let text_units: Vec<u16> = text.encode_utf16().collect();
    assert_eq!(text_units, out_units);
}

#[test]
fn rewrite_and_rewrite_units_agree_unit_for_unit() {
    let options = ReplaceOptions {
        prevent_assignment: true,
        object_guards: true,
    };
    let table = build(
        &[
            ("process.env.MODE", "\"prod\""),
            ("é", "\u{1F600}"),
            ("\u{1F600}x", "y"),
            ("__A__", "1"),
        ],
        options,
    );
    for src in [
        "if (process.env.MODE) f(é, \u{1F600}x);",
        "let __A__ = 2; __A__ = 3; g(__A__); typeof process.env",
        "é\u{1F600}x__A__é",
        "",
    ] {
        let (text, hits) = table.rewrite(src);
        let units: Vec<u16> = src.encode_utf16().collect();
        let (out, unit_hits) = table.rewrite_units(&units);
        assert_eq!(hits, unit_hits);
        assert_eq!(text.encode_utf16().collect::<Vec<u16>>(), out);
    }
}

#[test]
fn rewrite_splices_the_byte_ranges_scan_hits_reports() {
    let entries = [("é", "λλ"), ("FLAG", ""), ("\u{1F600}", "x")];
    let table = build(&entries, ReplaceOptions::default());
    let src = "a é + FLAG(\u{1F600}) é";
    let hits = table.scan_hits(src);
    let keys = table.entry_keys();
    let mut expected = String::new();
    let mut cursor = 0usize;
    for hit in &hits {
        expected.push_str(&src[cursor..hit.start as usize]);
        let key = &keys[hit.entry];
        let value = entries.iter().find(|(k, _)| k == key).map(|(_, v)| *v).unwrap();
        expected.push_str(value);
        cursor = hit.end as usize;
    }
    expected.push_str(&src[cursor..]);
    let (text, count) = table.rewrite(src);
    assert_eq!(count, hits.len());
    assert!(count > 0);
    assert_eq!(text, expected);
}
