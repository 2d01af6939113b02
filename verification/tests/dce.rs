use petrea::blanker::Blanker;
use petrea::dce::{
    dead_arm, dead_blank, ArmShape, DceCandidate, DeadArm, DeadBlank, dead_region_blocker, report_blocker, strict_equal, truthiness, value, BinaryOp, Blocker, Const,
    DeadRegion, LogicalOp, TestExpr, UnaryOp,
};
use petrea::flattener::{Flattener, NodeKind};
use petrea::guards::Walker;
use petrea::source_text::SourceText;

enum Step {
    Enter(NodeKind),
    Leave,
}

use Step::{Enter, Leave};

fn walker(steps: Vec<Step>, budget: u32, function_depth: u32) -> Walker {
    let mut flattener = Flattener::gated(Vec::new());
    for step in steps {
        match step {
            Enter(kind) => flattener.enter_node(kind, 0, 0),
            Leave => flattener.leave_node(),
        }
    }
    let parts = flattener.into_parts();
    Walker {
        src: String::new(),
        blanker: Blanker::new(),
        nodes: parts.nodes,
        spans: parts.spans,
        parent: parts.parent,
        first_child: parts.first_child,
        next_sibling: parts.next_sibling,
        has_jsx: parts.gates.has_jsx,
        has_with: parts.gates.has_with,
        guard_budget: budget,
        guard_budget_reported: false,
        function_depth,
    }
}

/// `if (x) { <body> }` with the block at index 2.
fn dead_block(body: Vec<Step>) -> Vec<Step> {
    let mut steps = vec![Enter(NodeKind::Program), Enter(NodeKind::Other), Enter(NodeKind::BlockStatement)];
    steps.extend(body);
    steps.extend(vec![Leave, Leave, Leave]);
    steps
}

#[test]
fn dce_var_blocks_hoisting() {
    let mut w = walker(
        dead_block(vec![Enter(NodeKind::VariableDeclaration { var: true, await_using: false }), Leave]),
        100,
        0,
    );
    assert_eq!(dead_region_blocker(&mut w, 2), DeadRegion::Blocked(Blocker::Hoisted));
    assert_eq!(w.guard_budget, 98);
}

#[test]
fn dce_let_is_clean() {
    let mut w = walker(
        dead_block(vec![Enter(NodeKind::VariableDeclaration { var: false, await_using: false }), Leave]),
        100,
        0,
    );
    assert_eq!(dead_region_blocker(&mut w, 2), DeadRegion::Clean);
    assert_eq!(w.guard_budget, 98);
    assert_eq!(report_blocker(&mut w, 2, (5, 9)), Some(()));
    assert!(w.blanker.reports.is_empty());
}

#[test]
fn dce_top_level_await_blocks() {
    let mut w = walker(dead_block(vec![Enter(NodeKind::AwaitExpression), Leave]), 100, 0);
    assert_eq!(report_blocker(&mut w, 2, (5, 9)), None);
    assert_eq!(w.blanker.reports.len(), 1);
    assert_eq!(w.blanker.reports[0].node_type, "dce-await");
    assert_eq!((w.blanker.reports[0].start, w.blanker.reports[0].end), (5, 9));
}

#[test]
fn dce_await_inside_a_function_is_clean() {
    let mut arrow = walker(
        dead_block(vec![
            Enter(NodeKind::ArrowFunctionExpression),
            Enter(NodeKind::AwaitExpression),
            Leave,
            Leave,
        ]),
        100,
        0,
    );
    assert_eq!(dead_region_blocker(&mut arrow, 2), DeadRegion::Clean);
    let mut nested = walker(dead_block(vec![Enter(NodeKind::AwaitExpression), Leave]), 100, 1);
    assert_eq!(dead_region_blocker(&mut nested, 2), DeadRegion::Clean);
    // a function declaration hoists wherever it stands
    let mut declared = walker(
        dead_block(vec![Enter(NodeKind::Function { declaration: true }), Leave]),
        100,
        0,
    );
    assert_eq!(dead_region_blocker(&mut declared, 2), DeadRegion::Blocked(Blocker::Hoisted));
}

#[test]
fn dce_sweep_visits_the_last_child_first() {
    let mut w = walker(
        dead_block(vec![
            Enter(NodeKind::AwaitExpression),
            Leave,
            Enter(NodeKind::VariableDeclaration { var: true, await_using: false }),
            Leave,
        ]),
        100,
        0,
    );
    assert_eq!(dead_region_blocker(&mut w, 2), DeadRegion::Blocked(Blocker::Hoisted));
    assert_eq!(w.guard_budget, 98);
}

#[test]
fn dce_budget_runs_dry_once_reported() {
    let mut w = walker(
        dead_block(vec![Enter(NodeKind::Other), Leave, Enter(NodeKind::Other), Leave]),
        2,
        0,
    );
    assert_eq!(report_blocker(&mut w, 2, (1, 2)), None);
    assert_eq!(w.guard_budget, 0);
    assert!(w.guard_budget_reported);
    assert_eq!(w.blanker.reports.len(), 1);
    assert_eq!(w.blanker.reports[0].node_type, "dce-budget");
    // every later candidate refuses without a second report
    assert_eq!(report_blocker(&mut w, 2, (3, 4)), None);
    assert_eq!(w.blanker.reports.len(), 1);
}

fn num(x: f64) -> TestExpr {
    TestExpr::NumericLiteral(x.to_bits())
}

fn other() -> TestExpr {
    TestExpr::Other
}

fn unary(operator: UnaryOp, argument: TestExpr) -> TestExpr {
    TestExpr::Unary { operator, argument: Box::new(argument) }
}

fn logical(op: LogicalOp, left: TestExpr, right: TestExpr) -> TestExpr {
    TestExpr::Logical { op, left: Box::new(left), right: Box::new(right) }
}

fn compare(comparison: BinaryOp, left: TestExpr, right: TestExpr) -> TestExpr {
    TestExpr::Binary { comparison, left: Box::new(left), right: Box::new(right) }
}

fn plain(src: &str) -> SourceText<'_> {
    SourceText { src, units: None, byte_to_unit: None }
}

#[test]
fn dce_literal_truthiness() {
    let s = plain("");
    assert_eq!(truthiness(&s, &num(0.0)), Some(false));
    assert_eq!(truthiness(&s, &num(1.0)), Some(true));
    assert_eq!(truthiness(&s, &num(f64::INFINITY)), Some(true));
    assert_eq!(truthiness(&s, &unary(UnaryOp::Negation, num(0.0))), Some(false));
    assert_eq!(truthiness(&s, &unary(UnaryOp::Negation, num(2.5))), Some(true));
    assert_eq!(truthiness(&s, &TestExpr::BooleanLiteral(false)), Some(false));
    assert_eq!(truthiness(&s, &TestExpr::NullLiteral), Some(false));
    assert_eq!(truthiness(&s, &unary(UnaryOp::Void, other())), Some(false));
    assert_eq!(truthiness(&s, &unary(UnaryOp::LogicalNot, num(0.0))), Some(true));
    assert_eq!(truthiness(&s, &unary(UnaryOp::Other, num(0.0))), None);
    assert_eq!(truthiness(&s, &TestExpr::BigIntLiteral("0".to_string())), Some(false));
    assert_eq!(truthiness(&s, &TestExpr::BigIntLiteral("10".to_string())), Some(true));
    assert_eq!(truthiness(&s, &other()), None);
    assert_eq!(truthiness(&s, &TestExpr::Wrapped(Box::new(num(0.0)))), Some(false));
}

#[test]
fn dce_string_truthiness_reads_the_source() {
    let s = plain("\"\" || \"a\"");
    let empty = TestExpr::StringLiteral { start: 0, end: 2 };
    let a = TestExpr::StringLiteral { start: 6, end: 9 };
    assert_eq!(truthiness(&s, &empty), Some(false));
    assert_eq!(truthiness(&s, &a), Some(true));
    match value(&s, &a) {
        Some(Const::Str(units)) => assert_eq!(units, vec![0x61]),
        _ => panic!("a string value"),
    }
}

#[test]
fn dce_logical_short_circuits() {
    let s = plain("");
    assert_eq!(truthiness(&s, &logical(LogicalOp::And, other(), TestExpr::BooleanLiteral(false))), Some(false));
    assert_eq!(truthiness(&s, &logical(LogicalOp::And, other(), TestExpr::BooleanLiteral(true))), None);
    assert_eq!(truthiness(&s, &logical(LogicalOp::And, num(0.0), other())), Some(false));
    assert_eq!(truthiness(&s, &logical(LogicalOp::And, num(1.0), num(2.0))), Some(true));
    assert_eq!(truthiness(&s, &logical(LogicalOp::Or, other(), TestExpr::BooleanLiteral(true))), Some(true));
    assert_eq!(truthiness(&s, &logical(LogicalOp::Or, num(0.0), num(0.0))), Some(false));
    // `??` never folds: nullishness is not truthiness
    assert_eq!(truthiness(&s, &logical(LogicalOp::Coalesce, num(1.0), num(1.0))), None);
    // a sequence is its last expression
    let sequence = TestExpr::Sequence { last: Some(Box::new(num(1.0))) };
    assert_eq!(truthiness(&s, &sequence), Some(true));
    // a logical chain has a truthiness but no value
    assert!(value(&s, &logical(LogicalOp::And, other(), TestExpr::BooleanLiteral(false))).is_none());
}

#[test]
fn dce_strict_equality() {
    let s = plain("\"a\" === \"a\"");
    let a1 = TestExpr::StringLiteral { start: 0, end: 3 };
    let a2 = TestExpr::StringLiteral { start: 8, end: 11 };
    assert_eq!(truthiness(&s, &compare(BinaryOp::StrictEquality, a1, a2)), Some(true));
    assert_eq!(truthiness(&s, &compare(BinaryOp::StrictEquality, num(0.0), unary(UnaryOp::Negation, num(0.0)))), Some(true));
    assert_eq!(truthiness(&s, &compare(BinaryOp::StrictInequality, num(1.0), num(1.0))), Some(false));
    assert_eq!(truthiness(&s, &compare(BinaryOp::StrictEquality, num(1.0), num(2.0))), Some(false));
    // cross-type pairs are never equal, `null` and `undefined` included
    assert_eq!(
        truthiness(&s, &compare(BinaryOp::StrictEquality, TestExpr::NullLiteral, unary(UnaryOp::Void, other()))),
        Some(false)
    );
    assert_eq!(truthiness(&s, &compare(BinaryOp::StrictEquality, num(1.0), other())), None);
    assert_eq!(truthiness(&s, &compare(BinaryOp::Other, num(1.0), num(1.0))), None);
    assert!(!strict_equal(&Const::Number(f64::NAN.to_bits()), &Const::Number(f64::NAN.to_bits())));
    assert!(strict_equal(&Const::BigInt("12".to_string()), &Const::BigInt("12".to_string())));
    assert!(Const::Number((-0.0f64).to_bits()).truthy() == false);
}

#[test]
fn dead_arms_follow_the_folded_test() {
    let if_ = |test, consequent_block, alternate_block| DceCandidate::If { test, consequent_block, alternate_block };
    assert!(dead_arm(&if_(None, true, Some(true))).is_none());
    assert!(matches!(dead_arm(&if_(Some(false), false, None)), Some(DeadArm::Consequent)));
    assert!(matches!(dead_arm(&if_(Some(false), true, Some(false))), Some(DeadArm::Consequent)));
    assert!(dead_arm(&if_(Some(false), false, Some(true))).is_none());
    assert!(dead_arm(&if_(Some(true), true, None)).is_none());
    assert!(matches!(dead_arm(&if_(Some(true), false, Some(true))), Some(DeadArm::Alternate)));
    assert!(dead_arm(&if_(Some(true), true, Some(false))).is_none());
    assert!(matches!(dead_arm(&DceCandidate::While { test: Some(false) }), Some(DeadArm::Body)));
    assert!(dead_arm(&DceCandidate::While { test: Some(true) }).is_none());
    assert!(dead_arm(&DceCandidate::For { folded_test: None }).is_none());
    assert!(dead_arm(&DceCandidate::For { folded_test: Some(None) }).is_none());
    assert!(matches!(dead_arm(&DceCandidate::For { folded_test: Some(Some(false)) }), Some(DeadArm::Body)));
}

#[test]
fn dead_statements_blank_by_shape() {
    assert!(matches!(
        dead_blank(&ArmShape::Block { start: 10, end: 20 }),
        DeadBlank::Interior { start: 11, end: 19 }
    ));
    assert!(matches!(dead_blank(&ArmShape::Empty), DeadBlank::Nothing));
    assert!(matches!(
        dead_blank(&ArmShape::Other { start: 3, end: 9 }),
        DeadBlank::Semicolon { start: 3, end: 9 }
    ));
}
