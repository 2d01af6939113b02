use petrea::blanker::Blanker;
use petrea::defines::{ChainRoot, DefineValue};
use petrea::flattener::{Flattener, NodeKind};
use petrea::guards::{is_dotted_identifier_chain, Walker};

/// One step of a walk: enter a node with its span, or leave the innermost.
enum Step {
    Enter(NodeKind, u32, u32),
    Leave,
}

use Step::{Enter, Leave};

fn walker(src: &str, steps: Vec<Step>) -> Walker {
    let mut flattener = Flattener::gated(vec!["FLAG".to_string()]);
    for step in steps {
        match step {
            Enter(kind, start, end) => flattener.enter_node(kind, start, end),
            Leave => flattener.leave_node(),
        }
    }
    let parts = flattener.into_parts();
    Walker {
        src: src.to_string(),
        blanker: Blanker::new(),
        nodes: parts.nodes,
        spans: parts.spans,
        parent: parts.parent,
        first_child: parts.first_child,
        next_sibling: parts.next_sibling,
        has_jsx: parts.gates.has_jsx,
        has_with: parts.gates.has_with,
        guard_budget: 131_072,
        guard_budget_reported: false,
        function_depth: 0,
    }
}

fn value(text: &str, root: Option<ChainRoot>, string: bool, assignable: bool) -> DefineValue {
    DefineValue {
        text: text.to_string(),
        numeric: false,
        negative: false,
        string,
        root,
        dotted: text.contains('.'),
        assignable,
        unary: false,
    }
}

#[test]
fn guards_delete_target() {
    // `delete FLAG;`
    let w = walker(
        "delete FLAG;",
        vec![
            Enter(NodeKind::Program, 0, 12),
            Enter(NodeKind::ExpressionStatement { expression_start: 0, expression_end: 11 }, 0, 12),
            Enter(NodeKind::UnaryExpression { delete: true, argument_start: 7 }, 0, 11),
            Enter(NodeKind::Other, 7, 11),
            Leave,
            Leave,
            Leave,
            Leave,
        ],
    );
    assert!(w.is_delete_target(3));
    assert!(!w.is_write_target(3));
    assert!(!w.is_write_target(0));
}

#[test]
fn guards_write_target_through_wrappers() {
    // `(FLAG as any) = 2;`
    let w = walker(
        "(FLAG as any) = 2;",
        vec![
            Enter(NodeKind::Program, 0, 18),
            Enter(NodeKind::ExpressionStatement { expression_start: 0, expression_end: 17 }, 0, 18),
            Enter(NodeKind::AssignmentExpression { left_start: 0 }, 0, 17),
            Enter(NodeKind::ParenthesizedExpression, 0, 13),
            Enter(NodeKind::TSAsExpression, 1, 12),
            Enter(NodeKind::Other, 1, 5),
            Leave,
            Leave,
            Leave,
            Enter(NodeKind::Other, 16, 17),
            Leave,
            Leave,
            Leave,
            Leave,
        ],
    );
    assert_eq!(w.unwrap_up(5), (3, false));
    assert_eq!(w.unwrap_up(4), (3, true));
    assert_eq!(w.unwrap_up(6), (6, false));
    assert_eq!(w.unwrap_down(3), 5);
    assert!(w.is_write_target(5));
    // the right-hand side reads
    assert!(!w.is_write_target(6));
    let literal = value("1", None, false, false);
    assert!(w.define_blocked(5, (1, 5), &literal));
    let entity = value("a.b", Some(ChainRoot::Ident("a".to_string())), false, true);
    assert!(!w.define_blocked(5, (1, 5), &entity));
}

#[test]
fn guards_define_blocked_by_erased_region() {
    let mut w = walker(
        "type T = FLAG;",
        vec![
            Enter(NodeKind::Program, 0, 14),
            Enter(NodeKind::Other, 0, 14),
            Enter(NodeKind::Other, 9, 13),
            Leave,
            Leave,
            Leave,
        ],
    );
    let entity = value("a", Some(ChainRoot::Ident("a".to_string())), false, true);
    assert!(!w.define_blocked(2, (9, 13), &entity));
    w.blanker.output.blank(0, 14);
    assert!(w.define_blocked(2, (9, 13), &entity));
}

#[test]
fn guards_unary_parens_contexts() {
    // `FLAG ** 2; 2 ** FLAG; (FLAG).x;`
    let w = walker(
        "FLAG ** 2; 2 ** FLAG; (FLAG).x;",
        vec![
            Enter(NodeKind::Program, 0, 31),
            Enter(NodeKind::ExpressionStatement { expression_start: 0, expression_end: 9 }, 0, 10),
            Enter(NodeKind::BinaryExpression { exponential: true, left_start: 0 }, 0, 9),
            Enter(NodeKind::Other, 0, 4),
            Leave,
            Enter(NodeKind::Other, 8, 9),
            Leave,
            Leave,
            Leave,
            Enter(NodeKind::ExpressionStatement { expression_start: 11, expression_end: 20 }, 11, 21),
            Enter(NodeKind::BinaryExpression { exponential: true, left_start: 11 }, 11, 20),
            Enter(NodeKind::Other, 11, 12),
            Leave,
            Enter(NodeKind::Other, 16, 20),
            Leave,
            Leave,
            Leave,
            Enter(NodeKind::ExpressionStatement { expression_start: 22, expression_end: 30 }, 22, 31),
            Enter(NodeKind::StaticMemberExpression { object_start: 22 }, 22, 30),
            Enter(NodeKind::ParenthesizedExpression, 22, 28),
            Enter(NodeKind::Other, 23, 27),
            Leave,
            Leave,
            Leave,
            Leave,
            Leave,
        ],
    );
    assert!(w.context_needs_unary_parens(3));
    assert!(!w.context_needs_unary_parens(8));
    // a paren already groups the splice
    assert!(!w.context_needs_unary_parens(12));
    assert!(!w.context_needs_unary_parens(0));
}

#[test]
fn guards_leading_semicolon() {
    // `FLAG();` in the program, and as an `if` clause body
    let w = walker(
        "FLAG(); if (c) FLAG();",
        vec![
            Enter(NodeKind::Program, 0, 22),
            Enter(NodeKind::ExpressionStatement { expression_start: 0, expression_end: 6 }, 0, 7),
            Enter(NodeKind::CallExpression { callee_start: 0 }, 0, 6),
            Enter(NodeKind::Other, 0, 4),
            Leave,
            Leave,
            Leave,
            Enter(NodeKind::Other, 8, 22),
            Enter(NodeKind::Other, 12, 13),
            Leave,
            Enter(NodeKind::ExpressionStatement { expression_start: 15, expression_end: 21 }, 15, 22),
            Enter(NodeKind::CallExpression { callee_start: 15 }, 15, 21),
            Enter(NodeKind::Other, 15, 19),
            Leave,
            Leave,
            Leave,
            Leave,
            Leave,
        ],
    );
    assert!(w.statement_needs_leading_semicolon(3, (0, 4), "(0, x)"));
    assert!(w.statement_needs_leading_semicolon(3, (0, 4), "-1"));
    assert!(!w.statement_needs_leading_semicolon(3, (0, 4), "x"));
    assert!(!w.statement_needs_leading_semicolon(3, (0, 4), ""));
    // a clause body: nothing precedes the statement there
    assert!(!w.statement_needs_leading_semicolon(8, (15, 19), "(0, x)"));
}

#[test]
fn guards_decorator_heads() {
    // `@a.b() class C {}`
    let src = "@a.b() class C {}";
    let w = walker(
        src,
        vec![
            Enter(NodeKind::Program, 0, 17),
            Enter(NodeKind::Class { heritage_start: None }, 0, 17),
            Enter(NodeKind::Decorator, 0, 6),
            Enter(NodeKind::CallExpression { callee_start: 1 }, 1, 6),
            Enter(NodeKind::StaticMemberExpression { object_start: 1 }, 1, 4),
            Enter(NodeKind::Other, 1, 2),
            Leave,
            Enter(NodeKind::Other, 3, 4),
            Leave,
            Leave,
            Leave,
            Leave,
            Enter(NodeKind::BindingIdentifier("C".to_string()), 13, 14),
            Leave,
            Leave,
            Leave,
        ],
    );
    assert_eq!(w.decorator_head(5), Some(3));
    assert!(w.chain_above_is_static(5, 3));
    assert_eq!(w.decorator_head(7), None);
    match w.decorator_head_splice(5, (1, 2), "x.y") {
        Some((span, text)) => {
            assert_eq!(span, (1, 2));
            assert_eq!(text, "x.y");
        }
        None => panic!("a decorator head"),
    }
    match w.decorator_head_splice(5, (1, 2), "42") {
        Some((span, text)) => {
            assert_eq!(span, (1, 6));
            assert_eq!(text, "(42.b())");
        }
        None => panic!("a decorator head"),
    }
}

#[test]
fn guards_this_and_arguments_nesting() {
    // `f(this); function g() { this; } class K { [this] = this; }`
    let w = walker(
        "f(this); function g() { this; } class K { [this] = this; }",
        vec![
            Enter(NodeKind::Program, 0, 59),
            Enter(NodeKind::ExpressionStatement { expression_start: 0, expression_end: 7 }, 0, 8),
            Enter(NodeKind::CallExpression { callee_start: 0 }, 0, 7),
            Enter(NodeKind::Other, 2, 6),
            Leave,
            Leave,
            Leave,
            Enter(NodeKind::Function { declaration: true }, 9, 31),
            Enter(NodeKind::FunctionBody, 22, 31),
            Enter(NodeKind::Other, 24, 28),
            Leave,
            Leave,
            Leave,
            Enter(NodeKind::Class { heritage_start: None }, 32, 59),
            Enter(NodeKind::PropertyDefinition { key_start: 43, key_end: 47 }, 42, 57),
            Enter(NodeKind::Other, 43, 47),
            Leave,
            Enter(NodeKind::Other, 51, 55),
            Leave,
            Leave,
            Leave,
            Leave,
        ],
    );
    assert!(!w.this_is_nested(3));
    assert!(w.this_is_nested(6));
    // a computed key evaluates in the enclosing `this`
    assert!(!w.this_is_nested(9));
    // an initializer gets the instance `this`
    assert!(w.this_is_nested(10));
    assert!(!w.arguments_is_nested(3));
    assert!(w.arguments_is_nested(6));
}

#[test]
fn guards_this_in_a_decorator() {
    // `@dec(this) class C {}` inside a function: the decorator sees the function's `this`
    let w = walker(
        "function f() { @dec(this) class C {} }",
        vec![
            Enter(NodeKind::Program, 0, 39),
            Enter(NodeKind::Function { declaration: true }, 0, 39),
            Enter(NodeKind::FunctionBody, 13, 39),
            Enter(NodeKind::Class { heritage_start: None }, 15, 37),
            Enter(NodeKind::Decorator, 15, 25),
            Enter(NodeKind::CallExpression { callee_start: 16 }, 16, 25),
            Enter(NodeKind::Other, 16, 19),
            Leave,
            Enter(NodeKind::Other, 20, 24),
            Leave,
            Leave,
            Leave,
            Leave,
            Leave,
            Leave,
            Leave,
        ],
    );
    assert!(w.this_is_nested(7));

    let top = walker(
        "@dec(this) class C {}",
        vec![
            Enter(NodeKind::Program, 0, 21),
            Enter(NodeKind::Class { heritage_start: None }, 0, 21),
            Enter(NodeKind::Decorator, 0, 10),
            Enter(NodeKind::CallExpression { callee_start: 1 }, 1, 10),
            Enter(NodeKind::Other, 5, 9),
            Leave,
            Leave,
            Leave,
            Leave,
            Leave,
        ],
    );
    assert!(!top.this_is_nested(4));
}

#[test]
fn guards_inside_with() {
    let w = walker(
        "with (FLAG) { FLAG }",
        vec![
            Enter(NodeKind::Program, 0, 20),
            Enter(NodeKind::WithStatement { body_start: 12, body_end: 20 }, 0, 20),
            Enter(NodeKind::Other, 6, 10),
            Leave,
            Enter(NodeKind::BlockStatement, 12, 20),
            Enter(NodeKind::Other, 14, 18),
            Leave,
            Leave,
            Leave,
            Leave,
        ],
    );
    assert!(w.has_with);
    assert!(!w.inside_with(2));
    assert!(w.inside_with(4));

    let without = walker(
        "FLAG",
        vec![Enter(NodeKind::Program, 0, 4), Enter(NodeKind::Other, 0, 4), Leave, Leave],
    );
    assert!(!without.inside_with(1));
}

#[test]
fn guards_jsx_tags() {
    // `<comp.X />; <Foo />;`
    let w = walker(
        "<comp.X />; <Foo />;",
        vec![
            Enter(NodeKind::Program, 0, 20),
            Enter(NodeKind::ExpressionStatement { expression_start: 0, expression_end: 10 }, 0, 11),
            Enter(NodeKind::JSXElement, 0, 10),
            Enter(NodeKind::JSXOpeningElement, 0, 10),
            Enter(NodeKind::JSXMemberExpression { property: "X".to_string() }, 1, 7),
            Enter(NodeKind::Other, 1, 5),
            Leave,
            Leave,
            Leave,
            Leave,
            Leave,
            Enter(NodeKind::ExpressionStatement { expression_start: 12, expression_end: 19 }, 12, 20),
            Enter(NodeKind::JSXElement, 12, 19),
            Enter(NodeKind::JSXOpeningElement, 12, 19),
            Enter(NodeKind::Other, 13, 16),
            Leave,
            Leave,
            Leave,
            Leave,
            Leave,
        ],
    );
    assert!(w.has_jsx);
    assert_eq!(w.jsx_tag_position(5), Some(true));
    assert_eq!(w.jsx_tag_position(9), Some(false));
    assert_eq!(w.jsx_tag_position(1), None);
    let ident = |text: &str| value(text, Some(ChainRoot::Ident(text.to_string())), false, true);
    // a member-tag root is a reference regardless of case
    assert!(!w.jsx_tag_violation(5, &ident("comp2"), "comp2"));
    // a bare lowercase splice would flip the component to an intrinsic tag
    assert!(w.jsx_tag_violation(9, &ident("lower"), "lower"));
    assert!(!w.jsx_tag_violation(9, &ident("Upper"), "Upper"));
    assert!(!w.jsx_tag_violation(9, &ident("a.b"), "a.b"));
    assert!(w.jsx_tag_violation(9, &ident("\\u0043omp"), "\\u0043omp"));
    assert!(w.jsx_tag_violation(9, &value("1", None, false, false), "1"));
    assert!(!w.jsx_tag_violation(9, &value("this.X", Some(ChainRoot::This), false, false), "this.X"));
    // a bare `this` starts lowercase: it would read as an intrinsic tag
    assert!(w.jsx_tag_violation(9, &value("this", Some(ChainRoot::This), false, false), "this"));
    // outside tag positions nothing is wrong
    assert!(!w.jsx_tag_violation(2, &value("1", None, false, false), "1"));
}

#[test]
fn guards_wrap_directive() {
    // `FLAG;` and `(FLAG);`
    let w = walker(
        "FLAG; (FLAG);",
        vec![
            Enter(NodeKind::Program, 0, 13),
            Enter(NodeKind::ExpressionStatement { expression_start: 0, expression_end: 4 }, 0, 5),
            Enter(NodeKind::Other, 0, 4),
            Leave,
            Leave,
            Enter(NodeKind::ExpressionStatement { expression_start: 6, expression_end: 12 }, 6, 13),
            Enter(NodeKind::ParenthesizedExpression, 6, 12),
            Enter(NodeKind::Other, 7, 11),
            Leave,
            Leave,
            Leave,
            Leave,
        ],
    );
    let string = value("\"x\"", None, true, false);
    assert_eq!(w.wrap_directive(2, &string, "\"x\"".to_string()), "(\"x\")");
    assert_eq!(w.wrap_directive(5, &string, "\"x\"".to_string()), "\"x\"");
    let number = value("1", None, false, false);
    assert_eq!(w.wrap_directive(2, &number, "1".to_string()), "1");
}

#[test]
fn guards_dotted_identifier_chains() {
    assert!(is_dotted_identifier_chain("a.b.c"));
    assert!(is_dotted_identifier_chain("_$.x1"));
    assert!(is_dotted_identifier_chain("a.true"));
    assert!(is_dotted_identifier_chain("é.x"));
    assert!(!is_dotted_identifier_chain("true"));
    assert!(!is_dotted_identifier_chain("this.x"));
    assert!(!is_dotted_identifier_chain("import"));
    assert!(!is_dotted_identifier_chain("a..b"));
    assert!(!is_dotted_identifier_chain("a."));
    assert!(!is_dotted_identifier_chain(".a"));
    assert!(!is_dotted_identifier_chain(""));
    assert!(!is_dotted_identifier_chain("1a"));
    assert!(!is_dotted_identifier_chain("a-b"));
}

#[test]
fn guards_receiver_detaching_splice() {
    // `(FLAG)(); (FLAG as any)(); FLAG`x`;`
    let w = walker(
        "(FLAG)(); (FLAG as any)(); FLAG`x`;",
        vec![
            Enter(NodeKind::Program, 0, 35),
            Enter(NodeKind::ExpressionStatement { expression_start: 0, expression_end: 8 }, 0, 9),
            Enter(NodeKind::CallExpression { callee_start: 0 }, 0, 8),
            Enter(NodeKind::ParenthesizedExpression, 0, 6),
            Enter(NodeKind::Other, 1, 5),
            Leave,
            Leave,
            Leave,
            Leave,
            Enter(NodeKind::ExpressionStatement { expression_start: 10, expression_end: 25 }, 10, 26),
            Enter(NodeKind::CallExpression { callee_start: 10 }, 10, 25),
            Enter(NodeKind::ParenthesizedExpression, 10, 23),
            Enter(NodeKind::TSAsExpression, 11, 22),
            Enter(NodeKind::Other, 11, 15),
            Leave,
            Leave,
            Leave,
            Leave,
            Leave,
            Enter(NodeKind::ExpressionStatement { expression_start: 27, expression_end: 34 }, 27, 35),
            Enter(NodeKind::TaggedTemplateExpression { tag_start: 27 }, 27, 34),
            Enter(NodeKind::Other, 27, 31),
            Leave,
            Leave,
            Leave,
            Leave,
        ],
    );
    assert!(w.is_call_or_tag_callee(3, 2));
    assert!(!w.is_call_or_tag_callee(4, 2));
    let (text, span) = w.detached(4, (1, 5), true, "a.b".to_string());
    assert_eq!(text, "(0, a.b)");
    assert_eq!(span, (0, 6));
    let (text, span) = w.detached(4, (1, 5), false, "a".to_string());
    assert_eq!(text, "a");
    assert_eq!(span, (1, 5));
    // a TS wrapper's erased region cannot be claimed
    let (text, span) = w.detached(9, (11, 15), true, "a.b".to_string());
    assert_eq!(text, "(0, a.b)");
    assert_eq!(span, (11, 15));
    let (text, span) = w.detached(12, (27, 31), true, "a.b".to_string());
    assert_eq!(text, "(0, a.b)");
    assert_eq!(span, (27, 31));
}

#[test]
fn guards_adjacent_source_bytes() {
    let w = walker(
        "FLAG.x - -FLAG",
        vec![Enter(NodeKind::Program, 0, 14), Leave],
    );
    assert!(w.followed_by_dot((0, 4)));
    assert!(!w.followed_by_dot((10, 14)));
    assert!(w.preceded_by_minus((10, 14)));
    assert!(!w.preceded_by_minus((0, 4)));
    assert!(!w.preceded_by_minus((5, 6)));
}

#[test]
fn guards_jsx_member_links() {
    // `<A.B.C />`
    let w = walker(
        "<A.B.C />",
        vec![
            Enter(NodeKind::Program, 0, 9),
            Enter(NodeKind::ExpressionStatement { expression_start: 0, expression_end: 9 }, 0, 9),
            Enter(NodeKind::JSXElement, 0, 9),
            Enter(NodeKind::JSXOpeningElement, 0, 9),
            Enter(NodeKind::JSXMemberExpression { property: "C".to_string() }, 1, 6),
            Enter(NodeKind::JSXMemberExpression { property: "B".to_string() }, 1, 4),
            Enter(NodeKind::Other, 1, 2),
            Leave,
            Leave,
            Leave,
            Leave,
            Leave,
            Leave,
            Leave,
        ],
    );
    match w.collect_jsx_member_links(6) {
        Some((links, outermost)) => {
            assert_eq!(links, vec![(5, "B".to_string()), (4, "C".to_string())]);
            assert_eq!(outermost, 4);
        }
        None => panic!("a member tag root"),
    }
    match w.collect_jsx_member_links(4) {
        Some((links, outermost)) => {
            assert!(links.is_empty());
            assert_eq!(outermost, 4);
        }
        None => panic!("a tag"),
    }
    assert!(w.collect_jsx_member_links(2).is_none());
}
