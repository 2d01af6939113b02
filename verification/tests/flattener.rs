use petrea::flattener::{
    first_byte_bitmap, flatten_events, starts_relevant, EnumMemberName, FlatEvent, Flattener, NodeKind,
};
use petrea::scopes::{derive_node_scopes, introduces_lexical_scope, is_enum_scope_container};
use petrea::tree::derive_parents;

const NONE: u32 = u32::MAX;

/// `function f(x) { enum E { x } } with (o) {}` as the walk enters it.
fn walk_sample(flattener: &mut Flattener) {
    flattener.enter_node(NodeKind::Program, 0, 43);
    flattener.enter_node(NodeKind::Function { declaration: true }, 0, 30);
    flattener.enter_node(NodeKind::BindingIdentifier("f".to_string()), 9, 10);
    flattener.leave_node();
    flattener.enter_node(NodeKind::FormalParameters, 10, 13);
    flattener.enter_node(NodeKind::BindingIdentifier("x".to_string()), 11, 12);
    flattener.leave_node();
    flattener.leave_node();
    flattener.enter_node(NodeKind::FunctionBody, 14, 30);
    flattener.enter_node(NodeKind::TSEnumDeclaration, 16, 28);
    flattener.enter_node(NodeKind::TSEnumMember(EnumMemberName::Identifier("x".to_string())), 25, 26);
    flattener.leave_node();
    flattener.leave_node();
    flattener.leave_node();
    flattener.leave_node();
    flattener.enter_node(NodeKind::WithStatement { body_start: 41, body_end: 43 }, 31, 43);
    flattener.leave_node();
    flattener.leave_node();
}

#[test]
fn flattener_links_children_in_preorder() {
    let mut flattener = Flattener::new();
    walk_sample(&mut flattener);
    let parts = flattener.into_parts();
    assert_eq!(parts.nodes.len(), 9);
    assert_eq!(parts.spans[0], (0, 43));
    assert_eq!(parts.spans[8], (31, 43));
    assert_eq!(parts.first_child, vec![1, 2, NONE, 4, NONE, 6, 7, NONE, NONE]);
    assert_eq!(parts.next_sibling, vec![NONE, 8, 3, 5, NONE, NONE, NONE, NONE, NONE]);
    assert_eq!(parts.enum_indices, vec![6]);
    // ungated: no parents, no gates
    assert!(parts.parent.is_empty());
    assert!(!parts.gates.has_with);
    assert!(parts.gates.bound.is_empty());
    assert!(parts.relevant.is_empty());
}

#[test]
fn flattener_gated_records_parents_and_gates() {
    let mut flattener = Flattener::gated(vec!["x".to_string(), "process".to_string()]);
    walk_sample(&mut flattener);
    let parts = flattener.into_parts();
    assert_eq!(parts.parent, vec![NONE, 0, 1, 1, 3, 1, 5, 6, 0]);
    assert!(parts.gates.has_with);
    assert!(!parts.gates.has_jsx);
    assert_eq!(parts.gates.bound, vec!["x".to_string()]);
    assert!(parts.gates.member_relevant);
    assert_eq!(parts.relevant, vec!["x".to_string(), "process".to_string()]);
}

#[test]
fn flattener_recorded_parents_match_derived_parents() {
    let mut flattener = Flattener::gated(vec!["f".to_string()]);
    walk_sample(&mut flattener);
    let parts = flattener.into_parts();
    let derived = derive_parents(&parts.first_child, &parts.next_sibling);
    assert_eq!(derived, parts.parent);
}

#[test]
fn flattener_bound_names_once_in_first_seen_order() {
    let mut flattener = Flattener::gated(vec!["b".to_string(), "a".to_string(), "c".to_string()]);
    flattener.enter_node(NodeKind::Program, 0, 0);
    for name in ["a", "zz", "b", "a", "b", ""] {
        flattener.enter_node(NodeKind::BindingIdentifier(name.to_string()), 0, 0);
        flattener.leave_node();
    }
    flattener.enter_node(NodeKind::JSXFragment, 0, 0);
    flattener.leave_node();
    flattener.leave_node();
    let parts = flattener.into_parts();
    assert_eq!(parts.gates.bound, vec!["a".to_string(), "b".to_string()]);
    assert!(parts.gates.has_jsx);
    assert!(!parts.gates.has_with);
    assert!(!parts.gates.member_relevant);
}

#[test]
fn flattener_member_collisions() {
    let mut flattener = Flattener::gated(vec!["DEBUG".to_string()]);
    flattener.enter_node(NodeKind::Program, 0, 0);
    flattener.enter_node(NodeKind::TSEnumMember(EnumMemberName::StringLiteral("other".to_string())), 0, 0);
    flattener.leave_node();
    let early = {
        // a computed template name cannot be decoded: it always collides
        flattener.enter_node(NodeKind::TSEnumMember(EnumMemberName::ComputedTemplateString), 0, 0);
        flattener.leave_node();
        flattener.leave_node();
        flattener.into_parts()
    };
    assert!(early.gates.member_relevant);

    let mut string_named = Flattener::gated(vec!["DEBUG".to_string()]);
    string_named.enter_node(NodeKind::Program, 0, 0);
    string_named.enter_node(NodeKind::TSEnumMember(EnumMemberName::ComputedString("DEBUG".to_string())), 0, 0);
    string_named.leave_node();
    string_named.leave_node();
    assert!(string_named.into_parts().gates.member_relevant);

    let mut unrelated = Flattener::gated(vec!["DEBUG".to_string()]);
    unrelated.enter_node(NodeKind::Program, 0, 0);
    unrelated.enter_node(NodeKind::TSEnumMember(EnumMemberName::Identifier("DEBUGGER".to_string())), 0, 0);
    unrelated.leave_node();
    unrelated.leave_node();
    assert!(!unrelated.into_parts().gates.member_relevant);
}

#[test]
fn flattener_two_roots_are_not_chained() {
    let mut flattener = Flattener::gated(Vec::new());
    flattener.enter_node(NodeKind::Program, 0, 0);
    flattener.leave_node();
    flattener.enter_node(NodeKind::Program, 0, 0);
    flattener.leave_node();
    let parts = flattener.into_parts();
    assert_eq!(parts.parent, vec![NONE, NONE]);
    assert_eq!(parts.next_sibling, vec![NONE, NONE]);
    assert_eq!(parts.first_child, vec![NONE, NONE]);
}

#[test]
fn bitmap_marks_first_bytes() {
    let firsts = first_byte_bitmap(&vec!["process".to_string(), "__DEV__".to_string(), "é".to_string(), String::new()]);
    // 'p' and '_' share the second word of the bitmap
    assert_eq!(firsts[1], (1u64 << (b'p' & 63)) | (1u64 << (b'_' & 63)));
    assert_eq!(firsts[2], 0);
    assert_eq!(firsts[3], 1u64 << (0xC3u8 & 63));
    assert_eq!(firsts[0], 0);
    assert!(starts_relevant("pid", &firsts));
    assert!(starts_relevant("_x", &firsts));
    assert!(!starts_relevant("q", &firsts));
    assert!(!starts_relevant("", &firsts));
}

#[test]
fn scope_kinds() {
    assert!(is_enum_scope_container(&NodeKind::Program));
    assert!(is_enum_scope_container(&NodeKind::StaticBlock));
    assert!(!is_enum_scope_container(&NodeKind::FormalParameters));
    assert!(introduces_lexical_scope(&NodeKind::CatchClause));
    assert!(introduces_lexical_scope(&NodeKind::TSEnumDeclaration));
    assert!(!introduces_lexical_scope(&NodeKind::SwitchCase));
    assert!(!introduces_lexical_scope(&NodeKind::Other));
}

#[test]
fn scopes_of_function_and_enum() {
    let mut flattener = Flattener::gated(Vec::new());
    walk_sample(&mut flattener);
    let parts = flattener.into_parts();
    let scopes = derive_node_scopes(&parts.nodes, &parts.parent, &parts.first_child, &parts.next_sibling);
    // the function's name is read before its parameter list is written
    assert_eq!(scopes, vec![0, 0, 0, 3, 3, 5, 6, 6, 0]);
}

#[test]
fn scopes_of_arrow_expression_body() {
    // `(a) => a`: the body evaluates in the parameter environment
    let nodes = vec![NodeKind::Program, NodeKind::ArrowFunctionExpression, NodeKind::FormalParameters, NodeKind::Other];
    let parent = vec![NONE, 0, 1, 1];
    let first_child = vec![1, 2, NONE, NONE];
    let next_sibling = vec![NONE, NONE, 3, NONE];
    assert_eq!(derive_node_scopes(&nodes, &parent, &first_child, &next_sibling), vec![0, 0, 2, 2]);
}

#[test]
fn scopes_of_switch_cases() {
    // `switch (d) { case 1: s }`: the cases share a scope keyed on the switch
    let nodes = vec![NodeKind::Program, NodeKind::Other, NodeKind::Other, NodeKind::SwitchCase, NodeKind::Other];
    let parent = vec![NONE, 0, 1, 1, 3];
    let first_child = vec![1, 2, NONE, 4, NONE];
    let next_sibling = vec![NONE, NONE, 3, NONE, NONE];
    assert_eq!(derive_node_scopes(&nodes, &parent, &first_child, &next_sibling), vec![0, 0, 0, 1, 1]);
}

#[test]
fn scopes_of_empty_tree() {
    assert!(derive_node_scopes(&[], &[], &[], &[]).is_empty());
}

#[test]
fn flattening_events_matches_entering_them_by_hand() {
    let enter = |kind: NodeKind, start: u32, end: u32| FlatEvent::Enter { kind, start, end };
    let events = vec![
        enter(NodeKind::Program, 0, 43),
        enter(NodeKind::Function { declaration: true }, 0, 30),
        enter(NodeKind::BindingIdentifier("f".to_string()), 9, 10),
        FlatEvent::Leave,
        enter(NodeKind::FormalParameters, 10, 13),
        enter(NodeKind::BindingIdentifier("x".to_string()), 11, 12),
        FlatEvent::Leave,
        FlatEvent::Leave,
        enter(NodeKind::FunctionBody, 14, 30),
        enter(NodeKind::TSEnumDeclaration, 16, 28),
        enter(NodeKind::TSEnumMember(EnumMemberName::Identifier("x".to_string())), 25, 26),
        FlatEvent::Leave,
        FlatEvent::Leave,
        FlatEvent::Leave,
        FlatEvent::Leave,
        enter(NodeKind::WithStatement { body_start: 41, body_end: 43 }, 31, 43),
        FlatEvent::Leave,
        FlatEvent::Leave,
    ];
    let parts = flatten_events(events, Some(vec!["x".to_string()]));
    assert_eq!(parts.nodes.len(), 9);
    assert_eq!(parts.spans[8], (31, 43));
    assert_eq!(parts.first_child, vec![1, 2, NONE, 4, NONE, 6, 7, NONE, NONE]);
    assert_eq!(parts.next_sibling, vec![NONE, 8, 3, 5, NONE, NONE, NONE, NONE, NONE]);
    assert_eq!(parts.enum_indices, vec![6]);
    assert_eq!(parts.parent, vec![NONE, 0, 1, 1, 3, 1, 5, 6, 0]);
    assert_eq!(parts.relevant, vec!["x".to_string()]);
}
