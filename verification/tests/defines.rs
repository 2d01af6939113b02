use petrea::defines::{
    key_from_shape, parse_key, parse_value, value_from_shape, ChainRoot, Defines, ExprShape,
    LiteralKind,
};

fn build(entries: &[(&str, &str)]) -> Result<Defines, String> {
    let list: Vec<(String, String)> = entries
        .iter()
        .map(|(k, v)| (k.to_string(), v.to_string()))
        .collect();
    Defines::new(&list)
}

fn ident(name: &str) -> ChainRoot {
    ChainRoot::Ident(name.to_string())
}

fn is_ident(root: &Option<ChainRoot>, expected: &str) -> bool {
    matches!(root, Some(ChainRoot::Ident(name)) if name == expected)
}

#[test]
fn accepts_literals_and_entity_names() {
    let defines = match build(&[
        ("a", "true"),
        ("b", "null"),
        ("c", "42"),
        ("d", "1e3"),
        ("e", "123n"),
        ("f", "\"s\""),
        ("g", "DEBUG"),
        ("h", "undefined"),
        ("i.j.k", "'x'"),
        ("k.class", "1"),
        ("this", "1"),
        ("this.foo", "2"),
        ("import.meta", "1"),
        ("import.meta.env.MODE", "'dev'"),
        ("x.y[\"z!\"]", "true"),
        ("x[\"y\"].z", "true"),
        ("v", "this"),
        ("w", "this.foo"),
        ("u", "import.meta.url"),
    ]) {
        Ok(defines) => defines,
        Err(error) => panic!("{error}"),
    };
    assert_eq!(defines.identifier("a").unwrap().text, "true");
    assert_eq!(defines.identifier("h").unwrap().text, "void 0");
    assert!(!defines.identifier("h").unwrap().assignable);
    assert!(defines.identifier("w").unwrap().dotted);
    assert!(!defines.identifier("v").unwrap().dotted);
    assert!(defines.identifier("c").unwrap().numeric);
    assert!(is_ident(&defines.identifier("g").unwrap().root, "DEBUG"));
    assert!(defines.this().is_some());
    assert!(defines.import_meta().is_some());
    assert!(matches!(defines.identifier("v").unwrap().root, Some(ChainRoot::This)));
    assert!(!defines.identifier("v").unwrap().assignable);
    assert!(defines.identifier("w").unwrap().assignable);
    assert!(defines.identifier("g").unwrap().assignable);
    assert!(!defines.identifier("c").unwrap().assignable);
    assert!(defines.dotted(&["k", "j"], &ident("i")).is_some());
    assert!(defines.dotted(&["class"], &ident("k")).is_some());
    assert!(defines.dotted(&["MODE", "env"], &ChainRoot::ImportMeta).is_some());
    assert!(defines.dotted(&["j"], &ident("i")).is_none());
    assert!(defines.dotted(&["k", "j"], &ChainRoot::This).is_none());
    assert_eq!(
        build(&[("c", "1 //c")]).unwrap_or_else(|e| panic!("{e}")).identifier("c").unwrap().text,
        "1"
    );
    assert_eq!(
        build(&[("c", "\"s\" /*t*/")])
            .unwrap_or_else(|e| panic!("{e}"))
            .identifier("c")
            .unwrap()
            .text,
        "\"s\""
    );
    let bracket = build(&[("x.y[\"z\"]", "true")]).unwrap_or_else(|e| panic!("{e}"));
    assert!(bracket.dotted(&["z", "y"], &ident("x")).is_some());
    assert!(bracket.dotted(&["z"], &ident("x")).is_none());
}

#[test]
fn rejects_bad_keys_and_values() {
    for key in ["", "a..b", "a b", "import", "import.env", "await", "3x", "x[y]", "a[0]"] {
        assert!(build(&[(key, "1")]).is_err(), "key {key:?} should be rejected");
    }
    for value in ["", "1 + 2", "foo()", "{ a: 1 }", "`t${x}`", "+1", "-x", "!0", "[1, 2]"] {
        assert!(build(&[("x", value)]).is_err(), "value {value:?} should be rejected");
    }
    let negative = build(&[("neg", "-1")]).unwrap_or_else(|e| panic!("{e}"));
    assert!(negative.identifier("neg").unwrap().negative);
}

#[test]
fn errors_name_the_first_bad_entry_in_key_order() {
    match build(&[("b", "1 + 2"), ("a b", "1")]) {
        Err(message) => assert_eq!(
            message,
            "invalid define key \"a b\": must be a dotted identifier path"
        ),
        Ok(_) => panic!("must fail"),
    }
    match build(&[("b", "1 + 2"), ("a", "1")]) {
        Err(message) => assert_eq!(
            message,
            "invalid define value for \"b\": must be a primitive literal or an entity name"
        ),
        Ok(_) => panic!("must fail"),
    }
}

#[test]
fn undefined_chains_splice_void_zero() {
    let value = parse_value("  undefined.x  ").unwrap_or_else(|e| panic!("{e}"));
    assert_eq!(value.text, "(void 0).x");
    assert!(value.dotted && value.assignable && !value.unary);
    let value = parse_value("undefined").unwrap_or_else(|e| panic!("{e}"));
    assert_eq!(value.text, "void 0");
    assert!(value.unary && !value.dotted);
}

#[test]
fn keys_split_into_root_and_segments() {
    match parse_key("a.b[\"c!\"]") {
        Ok((root, segments)) => {
            assert!(matches!(root, ChainRoot::Ident(ref name) if name == "a"));
            assert_eq!(segments, ["b", "c!"]);
        }
        Err(error) => panic!("{error}"),
    }
    match parse_key("import.meta.env") {
        Ok((root, segments)) => {
            assert!(matches!(root, ChainRoot::ImportMeta));
            assert_eq!(segments, ["env"]);
        }
        Err(error) => panic!("{error}"),
    }
}

#[test]
fn shapes_decide_without_a_parser() {
    // `this.x` as a shape: a static member over `this`
    let shape = ExprShape::StaticMember {
        object: Box::new(ExprShape::This { start: 0, end: 4 }),
        property: "x".to_string(),
        start: 0,
        end: 6,
    };
    match key_from_shape(&shape) {
        Ok((root, segments)) => {
            assert!(matches!(root, ChainRoot::This));
            assert_eq!(segments, ["x"]);
        }
        Err(error) => panic!("{error}"),
    }
    let value = value_from_shape("this.x", &shape).unwrap_or_else(|e| panic!("{e}"));
    assert_eq!(value.text, "this.x");
    assert!(value.dotted && value.assignable);
    // a member over a literal is no entity
    let shape = ExprShape::StaticMember {
        object: Box::new(ExprShape::Literal {
            kind: LiteralKind::Numeric,
            start: 0,
            end: 1,
        }),
        property: "x".to_string(),
        start: 0,
        end: 4,
    };
    assert!(value_from_shape("1 .x", &shape).is_err());
    assert!(key_from_shape(&ExprShape::Other { start: 0, end: 1 }).is_err());
}

#[test]
fn later_keys_win_for_the_same_identifier() {
    // `\u0061` and `a` both name `a`; keys register in key order, the later
    // (`a` sorts after `\\u0061`) wins
    let defines = build(&[("a", "1"), ("\\u0061", "2")]).unwrap_or_else(|e| panic!("{e}"));
    assert_eq!(defines.identifier("a").unwrap().text, "1");
    assert_eq!(defines.max_dotted_chain("z"), None);
    let defines = build(&[("x.y.z", "1"), ("q.z", "2")]).unwrap_or_else(|e| panic!("{e}"));
    assert_eq!(defines.max_dotted_chain("z"), Some(2));
    assert!(!defines.is_empty());
    assert!(build(&[]).unwrap_or_else(|e| panic!("{e}")).is_empty());
}

#[test]
fn values_are_trimmed_of_unicode_white_space() {
    // U+0085 is Unicode white space but no JavaScript whitespace: only the
    // trim lets the value parse.
    let value = parse_value("\u{85}\u{3000} 42\t\u{85}").unwrap_or_else(|e| panic!("{e}"));
    assert_eq!(value.text, "42");
    assert!(value.numeric && !value.negative);
}
