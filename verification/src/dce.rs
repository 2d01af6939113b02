//! Dead-code elimination's decisions: whether an `if`/`while`/`for` test
//! folds to a constant truthiness, and the dead-region guard — before a dead
//! arm is hollowed, the region below it is swept for what must not vanish:
//! a `var` or function declaration (the binding may hoist past the branch)
//! or an await at module top level. The sweeps of one transpile share a
//! budget; when it runs dry the sweep gives up, and the fold is refused.
//!
//! [`truthiness`] is the whole fold: `Some(b)` promises that IF the test
//! completes normally, its value boolean-converts to `b` — nothing about
//! purity, because the test stays verbatim and still evaluates at runtime.
//! Numbers are held as their IEEE-754 binary64 bit patterns, on which every
//! operation the fold needs (zero test, negation, strict equality) is
//! exact.

use vstd::prelude::*;

use crate::flattener::NodeKind;
use crate::guards::Walker;
use crate::literal_text::decoded;
use crate::source_text::SourceText;

verus! {

/// Why a dead region cannot blank.
#[derive(Clone, Copy, PartialEq, Eq, Debug)]
pub enum Blocker {
    /// a `var` or function declaration below the dead root
    Hoisted,
    /// an await at module top level
    Await,
}

/// The outcome of a dead-region sweep.
#[derive(Clone, Copy, PartialEq, Eq, Debug)]
pub enum DeadRegion {
    Clean,
    Blocked(Blocker),
    BudgetExhausted,
}

/// What blocks the region at a node of this kind (`in_function`: whether
/// a function encloses it): a `var` or function declaration anywhere below
/// (deliberately scope-blind), or an await outside every function.
pub open spec fn blocker(kind: NodeKind, in_function: bool) -> Option<Blocker> {
    match kind {
        NodeKind::VariableDeclaration { var, await_using } => if var {
            Some(Blocker::Hoisted)
        } else if await_using && !in_function {
            Some(Blocker::Await)
        } else {
            None
        },
        NodeKind::Function { declaration } => if declaration {
            Some(Blocker::Hoisted)
        } else {
            None
        },
        NodeKind::AwaitExpression => if !in_function {
            Some(Blocker::Await)
        } else {
            None
        },
        NodeKind::ForOfStatement { is_await, .. } => if is_await && !in_function {
            Some(Blocker::Await)
        } else {
            None
        },
        _ => None,
    }
}

/// The sibling chain from `start`, in order.
pub open spec fn chain_nodes(ns: Seq<u32>, start: int) -> Seq<u32>
    decreases ns.len() - start,
{
    if !(0 <= start < ns.len()) {
        Seq::empty()
    } else if start < ns[start] < ns.len() {
        seq![start as u32] + chain_nodes(ns, ns[start] as int)
    } else {
        seq![start as u32]
    }
}

/// Stack entries for children, each carrying whether a function encloses
/// it.
pub open spec fn tagged(children: Seq<u32>, in_function: bool) -> Seq<(u32, bool)> {
    children.map_values(|c: u32| (c, in_function))
}

/// The sweep from a stack of pending nodes with `budget` visits left: the
/// last entry is visited first (costing one visit); a blocker ends the
/// sweep, otherwise the node's children are pushed in order, inside a
/// function from any function or arrow down. The outcome and the budget
/// left.
pub open spec fn sweep(
    nodes: Seq<NodeKind>,
    fc: Seq<u32>,
    ns: Seq<u32>,
    stack: Seq<(u32, bool)>,
    budget: u32,
) -> (DeadRegion, u32)
    decreases budget,
{
    if stack.len() == 0 {
        (DeadRegion::Clean, budget)
    } else if budget == 0 {
        (DeadRegion::BudgetExhausted, 0)
    } else {
        let (idx, in_function) = stack.last();
        let left = (budget - 1) as u32;
        match blocker(nodes[idx as int], in_function) {
            Some(kind) => (DeadRegion::Blocked(kind), left),
            None => {
                let inner = in_function || nodes[idx as int] is Function
                    || nodes[idx as int] is ArrowFunctionExpression;
                sweep(
                    nodes,
                    fc,
                    ns,
                    stack.drop_last() + tagged(chain_nodes(ns, fc[idx as int] as int), inner),
                    left,
                )
            },
        }
    }
}

proof fn lemma_chain_in_range(ns: Seq<u32>, start: int)
    ensures
        forall|k: int| 0 <= k < chain_nodes(ns, start).len() ==> #[trigger] chain_nodes(ns, start)[k] < ns.len(),
    decreases ns.len() - start,
{
    if 0 <= start < ns.len() && start < ns[start] < ns.len() {
        lemma_chain_in_range(ns, ns[start] as int);
        let rest = chain_nodes(ns, ns[start] as int);
        assert forall|k: int| 0 <= k < chain_nodes(ns, start).len() implies #[trigger] chain_nodes(
            ns,
            start,
        )[k] < ns.len() by {
            if k > 0 {
                assert(chain_nodes(ns, start)[k] == rest[k - 1]);
            }
        }
    }
}

/// What the kind of one node blocks.
fn blocker_at(kind: &NodeKind, in_function: bool) -> (r: Option<Blocker>)
    ensures
        r == blocker(*kind, in_function),
{
    match kind {
        NodeKind::VariableDeclaration { var, await_using } => {
            if *var {
                Some(Blocker::Hoisted)
            } else if *await_using && !in_function {
                Some(Blocker::Await)
            } else {
                None
            }
        },
        NodeKind::Function { declaration } => {
            if *declaration {
                Some(Blocker::Hoisted)
            } else {
                None
            }
        },
        NodeKind::AwaitExpression => {
            if !in_function {
                Some(Blocker::Await)
            } else {
                None
            }
        },
        NodeKind::ForOfStatement { is_await, .. } => {
            if *is_await && !in_function {
                Some(Blocker::Await)
            } else {
                None
            }
        },
        _ => None,
    }
}

/// Why the region rooted at `root` cannot blank (see [`sweep`]), spending
/// the walker's sweep budget; the sweep starts inside a function when the
/// walk is.
pub fn dead_region_blocker(w: &mut Walker, root: u32) -> (r: DeadRegion)
    requires
        old(w).tree_ok(),
        root < old(w).nodes@.len(),
    ensures
        (r, final(w).guard_budget) == sweep(
            old(w).nodes@,
            old(w).first_child@,
            old(w).next_sibling@,
            seq![(root, old(w).function_depth > 0)],
            old(w).guard_budget,
        ),
        final(w).nodes == old(w).nodes,
        final(w).spans == old(w).spans,
        final(w).parent == old(w).parent,
        final(w).first_child == old(w).first_child,
        final(w).next_sibling == old(w).next_sibling,
        final(w).blanker == old(w).blanker,
        final(w).src == old(w).src,
        final(w).has_jsx == old(w).has_jsx,
        final(w).has_with == old(w).has_with,
        final(w).guard_budget_reported == old(w).guard_budget_reported,
        final(w).function_depth == old(w).function_depth,
{
    let ghost nodes = w.nodes@;
    let ghost fc = w.first_child@;
    let ghost ns = w.next_sibling@;
    let ghost goal = sweep(nodes, fc, ns, seq![(root, w.function_depth > 0)], w.guard_budget);
    let mut stack: Vec<(u32, bool)> = Vec::new();
    stack.push((root, w.function_depth > 0));
    proof {
        assert(stack@ =~= seq![(root, w.function_depth > 0)]);
    }
    loop
        invariant
            w.tree_ok(),
            nodes == w.nodes@,
            fc == w.first_child@,
            ns == w.next_sibling@,
            forall|k: int| 0 <= k < stack@.len() ==> (#[trigger] stack@[k]).0 < nodes.len(),
            sweep(nodes, fc, ns, stack@, w.guard_budget) == goal,
            w.nodes == old(w).nodes,
            w.spans == old(w).spans,
            w.parent == old(w).parent,
            w.first_child == old(w).first_child,
            w.next_sibling == old(w).next_sibling,
            w.blanker == old(w).blanker,
            w.src == old(w).src,
            w.has_jsx == old(w).has_jsx,
            w.has_with == old(w).has_with,
            w.guard_budget_reported == old(w).guard_budget_reported,
            w.function_depth == old(w).function_depth,
            goal == sweep(
                old(w).nodes@,
                old(w).first_child@,
                old(w).next_sibling@,
                seq![(root, old(w).function_depth > 0)],
                old(w).guard_budget,
            ),
        decreases w.guard_budget,
    {
        if stack.len() == 0 {
            return DeadRegion::Clean;
        }
        if w.guard_budget == 0 {
            return DeadRegion::BudgetExhausted;
        }
        let ghost before = stack@;
        let (idx, in_function) = stack.pop().unwrap();
        proof {
            assert(before.last() == (idx, in_function));
            assert(stack@ == before.drop_last());
        }
        w.guard_budget = w.guard_budget - 1;
        let kind = &w.nodes[idx as usize];
        if let Some(found) = blocker_at(kind, in_function) {
            return DeadRegion::Blocked(found);
        }
        let inner = in_function || match kind {
            NodeKind::Function { .. } | NodeKind::ArrowFunctionExpression => true,
            _ => false,
        };
        let ghost rest = stack@;
        let ghost children = chain_nodes(ns, fc[idx as int] as int);
        proof {
            lemma_chain_in_range(ns, fc[idx as int] as int);
        }
        let mut child = w.first_child[idx as usize];
        while child != u32::MAX
            invariant
                w.tree_ok(),
                nodes == w.nodes@,
                fc == w.first_child@,
                ns == w.next_sibling@,
                idx < nodes.len(),
                child == u32::MAX || child < nodes.len(),
                children == chain_nodes(ns, fc[idx as int] as int),
                forall|k: int| 0 <= k < children.len() ==> #[trigger] children[k] < nodes.len(),
                forall|k: int| 0 <= k < rest.len() ==> (#[trigger] rest[k]).0 < nodes.len(),
                stack@ + tagged(chain_nodes(ns, child as int), inner) == rest + tagged(children, inner),
                forall|k: int| 0 <= k < stack@.len() ==> (#[trigger] stack@[k]).0 < nodes.len(),
            decreases if child == u32::MAX { 0 } else { nodes.len() - child + 1 },
        {
            let ghost here = chain_nodes(ns, child as int);
            let next = w.next_sibling[child as usize];
            proof {
                lemma_chain_in_range(ns, child as int);
                assert(here =~= seq![child] + chain_nodes(ns, next as int)) by {
                    if next != u32::MAX {
                        assert(child < next < ns.len());
                    }
                }
                assert(tagged(here, inner) =~= seq![(child, inner)] + tagged(
                    chain_nodes(ns, next as int),
                    inner,
                ));
            }
            stack.push((child, inner));
            proof {
                assert(stack@ + tagged(chain_nodes(ns, next as int), inner) =~= rest + tagged(
                    children,
                    inner,
                ));
            }
            child = next;
        }
        proof {
            assert(chain_nodes(ns, u32::MAX as int) =~= Seq::<u32>::empty());
            assert(tagged(Seq::<u32>::empty(), inner) =~= Seq::<(u32, bool)>::empty());
            assert(stack@ =~= rest + tagged(children, inner));
        }
    }
}

/// The sweeps share one budget: a sweep never spends more than is left,
/// and once the budget has run dry every later candidate is refused
/// without sweeping.
pub proof fn lemma_sweep_budget(
    nodes: Seq<NodeKind>,
    fc: Seq<u32>,
    ns: Seq<u32>,
    stack: Seq<(u32, bool)>,
    budget: u32,
)
    ensures
        sweep(nodes, fc, ns, stack, budget).1 <= budget,
        budget == 0 && stack.len() > 0 ==> sweep(nodes, fc, ns, stack, budget) == (
            DeadRegion::BudgetExhausted,
            0u32,
        ),
    decreases budget,
{
    if stack.len() > 0 && budget > 0 {
        let (idx, in_function) = stack.last();
        let inner = in_function || nodes[idx as int] is Function
            || nodes[idx as int] is ArrowFunctionExpression;
        lemma_sweep_budget(
            nodes,
            fc,
            ns,
            stack.drop_last() + tagged(chain_nodes(ns, fc[idx as int] as int), inner),
            (budget - 1) as u32,
        );
    }
}

/// The report name of a blocker.
pub open spec fn blocker_name(kind: Blocker) -> Seq<char> {
    match kind {
        Blocker::Hoisted => "dce-hoisted"@,
        Blocker::Await => "dce-await"@,
    }
}

/// The dead-region guard as a fallible step: a blocker reports against the
/// candidate statement's span and refuses the fold; running out of budget
/// refuses too, the first time reporting `dce-budget`.
pub fn report_blocker(w: &mut Walker, dead_root: u32, candidate: (u32, u32)) -> (r: Option<()>)
    requires
        old(w).tree_ok(),
        dead_root < old(w).nodes@.len(),
    ensures
        ({
            let (region, left) = sweep(
                old(w).nodes@,
                old(w).first_child@,
                old(w).next_sibling@,
                seq![(dead_root, old(w).function_depth > 0)],
                old(w).guard_budget,
            );
            &&& final(w).guard_budget == left
            &&& (r is Some <==> region == DeadRegion::Clean)
            &&& final(w).blanker.output == old(w).blanker.output
            &&& match region {
                DeadRegion::Blocked(kind) => {
                    &&& final(w).blanker.reports@ == old(w).blanker.reports@.push(
                        final(w).blanker.reports@.last(),
                    )
                    &&& final(w).blanker.reports@.last().node_type@ == blocker_name(kind)
                    &&& final(w).blanker.reports@.last().start == candidate.0
                    &&& final(w).blanker.reports@.last().end == candidate.1
                    &&& final(w).guard_budget_reported == old(w).guard_budget_reported
                },
                DeadRegion::BudgetExhausted => {
                    &&& final(w).guard_budget_reported
                    &&& old(w).guard_budget_reported ==> final(w).blanker.reports
                        == old(w).blanker.reports
                    &&& !old(w).guard_budget_reported ==> {
                        &&& final(w).blanker.reports@ == old(w).blanker.reports@.push(
                            final(w).blanker.reports@.last(),
                        )
                        &&& final(w).blanker.reports@.last().node_type@ == "dce-budget"@
                        &&& final(w).blanker.reports@.last().start == candidate.0
                        &&& final(w).blanker.reports@.last().end == candidate.1
                    }
                },
                DeadRegion::Clean => {
                    &&& final(w).blanker.reports == old(w).blanker.reports
                    &&& final(w).guard_budget_reported == old(w).guard_budget_reported
                },
            }
        }),
        final(w).nodes == old(w).nodes,
        final(w).spans == old(w).spans,
        final(w).parent == old(w).parent,
        final(w).first_child == old(w).first_child,
        final(w).next_sibling == old(w).next_sibling,
        final(w).function_depth == old(w).function_depth,
{
    match dead_region_blocker(w, dead_root) {
        DeadRegion::Blocked(kind) => {
            let name = match kind {
                Blocker::Hoisted => "dce-hoisted",
                Blocker::Await => "dce-await",
            };
            w.blanker.report(name, candidate.0, candidate.1);
            proof {
                assert(w.blanker.reports@ =~= old(w).blanker.reports@.push(w.blanker.reports@.last()));
            }
            None
        },
        DeadRegion::BudgetExhausted => {
            if !w.guard_budget_reported {
                w.guard_budget_reported = true;
                w.blanker.report("dce-budget", candidate.0, candidate.1);
                proof {
                    assert(w.blanker.reports@ =~= old(w).blanker.reports@.push(
                        w.blanker.reports@.last(),
                    ));
                }
            }
            None
        },
        DeadRegion::Clean => Some(()),
    }
}

/// The logical operators.
#[derive(Clone, Copy, PartialEq, Eq, Debug)]
pub enum LogicalOp {
    And,
    Or,
    Coalesce,
}

/// The unary operators the fold distinguishes.
#[derive(Clone, Copy, PartialEq, Eq, Debug)]
pub enum UnaryOp {
    Void,
    LogicalNot,
    Negation,
    Other,
}

/// The binary operators the fold distinguishes.
#[derive(Clone, Copy, PartialEq, Eq, Debug)]
pub enum BinaryOp {
    StrictEquality,
    StrictInequality,
    Other,
}

/// A test expression as the fold reads it. `Wrapped` is a paren or a TS
/// wrapper whose erasure is invisible at runtime; a sequence keeps only its
/// last expression (every earlier one still evaluates in the kept head); a
/// number is its binary64 bit pattern; a string literal is its span (quotes
/// included), decoded from the source; a BigInt is its base-10 digits.
pub enum TestExpr {
    Logical { op: LogicalOp, left: Box<TestExpr>, right: Box<TestExpr> },
    Sequence { last: Option<Box<TestExpr>> },
    Wrapped(Box<TestExpr>),
    BooleanLiteral(bool),
    NullLiteral,
    NumericLiteral(u64),
    StringLiteral { start: u32, end: u32 },
    BigIntLiteral(String),
    Unary { operator: UnaryOp, argument: Box<TestExpr> },
    Binary { comparison: BinaryOp, left: Box<TestExpr>, right: Box<TestExpr> },
    Other,
}

/// The constant domain `===`/`!==` compares over: strings hold their true
/// UTF-16 units, numbers their binary64 bits; `undefined` only ever arises
/// from `void`.
pub enum Const {
    Bool(bool),
    Number(u64),
    Str(Vec<u16>),
    BigInt(String),
    Null,
    Undefined,
}

/// A constant as plain values.
pub enum ConstValue {
    Bool(bool),
    Number(u64),
    Str(Seq<u16>),
    BigInt(Seq<char>),
    Null,
    Undefined,
}

/// The plain value of a constant.
pub open spec fn const_value(c: Const) -> ConstValue {
    match c {
        Const::Bool(b) => ConstValue::Bool(b),
        Const::Number(n) => ConstValue::Number(n),
        Const::Str(u) => ConstValue::Str(u@),
        Const::BigInt(d) => ConstValue::BigInt(d@),
        Const::Null => ConstValue::Null,
        Const::Undefined => ConstValue::Undefined,
    }
}

/// The sign bit of a binary64.
pub open spec fn sign_bit() -> u64 {
    0x8000_0000_0000_0000
}

/// Whether a binary64 is +0 or -0.
pub open spec fn is_zero(bits: u64) -> bool {
    bits & 0x7FFF_FFFF_FFFF_FFFF == 0
}

/// Whether a binary64 is a NaN: all exponent bits set, a nonzero fraction.
pub open spec fn is_nan(bits: u64) -> bool {
    bits & 0x7FF0_0000_0000_0000 == 0x7FF0_0000_0000_0000 && bits & 0x000F_FFFF_FFFF_FFFF != 0
}

/// IEEE-754 equality of two binary64s: never for a NaN, always for two
/// zeros, otherwise equal bits.
pub open spec fn number_equal(a: u64, b: u64) -> bool {
    !is_nan(a) && !is_nan(b) && (a == b || (is_zero(a) && is_zero(b)))
}

/// Whether some digit is not `0`.
pub open spec fn nonzero_digits(d: Seq<char>) -> bool {
    exists|k: int| 0 <= k < d.len() && #[trigger] d[k] != '0'
}

/// JavaScript truthiness over the domain (a number is truthy unless zero;
/// a BigInt unless all its digits are `0`).
pub open spec fn truthy(c: ConstValue) -> bool {
    match c {
        ConstValue::Bool(b) => b,
        ConstValue::Number(n) => !is_zero(n),
        ConstValue::Str(u) => u.len() > 0,
        ConstValue::BigInt(d) => nonzero_digits(d),
        ConstValue::Null => false,
        ConstValue::Undefined => false,
    }
}

/// Strict equality over the domain: same-type pairs compare by value,
/// every cross-type pair is unequal (`null` and `undefined` included).
pub open spec fn strictly_equal(a: ConstValue, b: ConstValue) -> bool {
    match (a, b) {
        (ConstValue::Bool(x), ConstValue::Bool(y)) => x == y,
        (ConstValue::Number(x), ConstValue::Number(y)) => number_equal(x, y),
        (ConstValue::Str(x), ConstValue::Str(y)) => x == y,
        (ConstValue::BigInt(x), ConstValue::BigInt(y)) => x == y,
        (ConstValue::Null, ConstValue::Null) => true,
        (ConstValue::Undefined, ConstValue::Undefined) => true,
        _ => false,
    }
}

/// Whether every string literal in `e` has a readable interior.
pub open spec fn strings_ok(source: SourceText, e: TestExpr) -> bool
    decreases e,
{
    match e {
        TestExpr::Logical { left, right, .. } => strings_ok(source, *left) && strings_ok(source, *right),
        TestExpr::Sequence { last } => match last {
            Some(x) => strings_ok(source, *x),
            None => true,
        },
        TestExpr::Wrapped(x) => strings_ok(source, *x),
        TestExpr::StringLiteral { start, end } => start < end && source.span_ok(
            (start + 1) as u32,
            (end - 1) as u32,
        ),
        TestExpr::Unary { argument, .. } => strings_ok(source, *argument),
        TestExpr::Binary { left, right, .. } => strings_ok(source, *left) && strings_ok(source, *right),
        _ => true,
    }
}

/// Whether the test, IF it completes, provably boolean-converts to a known
/// value: `&&`/`||` short-circuit on a known side (or decide through a
/// known right side), `??` never folds, a sequence is its last
/// expression, anything else folds through its value.
pub open spec fn truth_of(source: SourceText, e: TestExpr) -> Option<bool>
    decreases e, 1int,
{
    match e {
        TestExpr::Wrapped(x) => truth_of(source, *x),
        TestExpr::Logical { op, left, right } => match op {
            LogicalOp::And => match truth_of(source, *left) {
                Some(false) => Some(false),
                Some(true) => truth_of(source, *right),
                None => if truth_of(source, *right) == Some(false) {
                    Some(false)
                } else {
                    None
                },
            },
            LogicalOp::Or => match truth_of(source, *left) {
                Some(true) => Some(true),
                Some(false) => truth_of(source, *right),
                None => if truth_of(source, *right) == Some(true) {
                    Some(true)
                } else {
                    None
                },
            },
            LogicalOp::Coalesce => None,
        },
        TestExpr::Sequence { last } => match last {
            Some(x) => truth_of(source, *x),
            None => None,
        },
        _ => match value_of(source, e) {
            Some(c) => Some(truthy(c)),
            None => None,
        },
    }
}

/// The value the expression provably evaluates to IF it completes: literals,
/// `void x` (undefined), `!x` of a known truthiness, `-n` of a known number,
/// and `===`/`!==` of two known values. Logical chains never have one.
pub open spec fn value_of(source: SourceText, e: TestExpr) -> Option<ConstValue>
    decreases e, 0int,
{
    match e {
        TestExpr::Wrapped(x) => value_of(source, *x),
        TestExpr::BooleanLiteral(b) => Some(ConstValue::Bool(b)),
        TestExpr::NullLiteral => Some(ConstValue::Null),
        TestExpr::NumericLiteral(n) => Some(ConstValue::Number(n)),
        TestExpr::StringLiteral { start, end } => Some(
            ConstValue::Str(decoded(source.span_units((start + 1) as u32, (end - 1) as u32), false, 0)),
        ),
        TestExpr::BigIntLiteral(d) => Some(ConstValue::BigInt(d@)),
        TestExpr::Unary { operator, argument } => match operator {
            UnaryOp::Void => Some(ConstValue::Undefined),
            UnaryOp::LogicalNot => match truth_of(source, *argument) {
                Some(t) => Some(ConstValue::Bool(!t)),
                None => None,
            },
            UnaryOp::Negation => match value_of(source, *argument) {
                Some(ConstValue::Number(n)) => Some(ConstValue::Number(n ^ sign_bit())),
                _ => None,
            },
            UnaryOp::Other => None,
        },
        TestExpr::Binary { comparison, left, right } => match comparison {
            BinaryOp::StrictEquality => match (value_of(source, *left), value_of(source, *right)) {
                (Some(a), Some(b)) => Some(ConstValue::Bool(strictly_equal(a, b))),
                _ => None,
            },
            BinaryOp::StrictInequality => match (value_of(source, *left), value_of(source, *right)) {
                (Some(a), Some(b)) => Some(ConstValue::Bool(!strictly_equal(a, b))),
                _ => None,
            },
            BinaryOp::Other => None,
        },
        _ => None,
    }
}

/// `e` with its parens and transparent TS wrappers stripped.
pub open spec fn unwrapped(e: TestExpr) -> TestExpr
    decreases e,
{
    match e {
        TestExpr::Wrapped(x) => unwrapped(*x),
        _ => e,
    }
}

/// The true UTF-16 units of the string literal spanning `[start, end)`,
/// decoded from the source (the parser's own value cannot hold raw lone
/// surrogates).
pub fn string_units(source: &SourceText, start: u32, end: u32) -> (r: Vec<u16>)
    requires
        start < end,
        source.span_ok((start + 1) as u32, (end - 1) as u32),
    ensures
        r@ == decoded(source.span_units((start + 1) as u32, (end - 1) as u32), false, 0),
{
    source.string_literal_value_units(start, end)
}

/// Parens and the TS wrappers whose erasure is invisible at runtime,
/// stripped.
pub fn unwrap_transparent(e: &TestExpr) -> (r: &TestExpr)
    ensures
        *r == unwrapped(*e),
        !(*r is Wrapped),
    decreases e,
{
    match e {
        TestExpr::Wrapped(inner) => unwrap_transparent(inner),
        _ => e,
    }
}

impl Const {
    /// JavaScript truthiness over the domain.
    pub fn truthy(&self) -> (r: bool)
        ensures
            r == truthy(const_value(*self)),
    {
        match self {
            Const::Bool(value) => *value,
            Const::Number(bits) => *bits & 0x7FFF_FFFF_FFFF_FFFF != 0,
            Const::Str(units) => units.len() > 0,
            Const::BigInt(digits) => {
                let (chars, _) = crate::chars::chars_with_offsets(digits.as_str());
                let mut i: usize = 0;
                while i < chars.len()
                    invariant
                        chars@ == digits@,
                        const_value(*self) == ConstValue::BigInt(digits@),
                        i <= chars@.len(),
                        forall|k: int| 0 <= k < i ==> chars@[k] == '0',
                    decreases chars@.len() - i,
                {
                    if chars[i] != '0' {
                        proof {
                            let d = digits@;
                            assert(0 <= i < d.len() && d[i as int] != '0');
                            assert(nonzero_digits(d));
                        }
                        return true;
                    }
                    i += 1;
                }
                false
            },
            Const::Null | Const::Undefined => false,
        }
    }
}

/// Whether two unit sequences are equal.
fn units_equal(a: &[u16], b: &[u16]) -> (r: bool)
    ensures
        r == (a@ == b@),
{
    if a.len() != b.len() {
        return false;
    }
    let mut i: usize = 0;
    while i < a.len()
        invariant
            a@.len() == b@.len(),
            i <= a@.len(),
            forall|k: int| 0 <= k < i ==> a@[k] == b@[k],
        decreases a@.len() - i,
    {
        if a[i] != b[i] {
            return false;
        }
        i += 1;
    }
    proof {
        assert(a@ =~= b@);
    }
    true
}

/// IEEE-754 equality of two binary64 bit patterns.
fn numbers_equal(a: u64, b: u64) -> (r: bool)
    ensures
        r == number_equal(a, b),
{
    let nan_a = a & 0x7FF0_0000_0000_0000 == 0x7FF0_0000_0000_0000 && a & 0x000F_FFFF_FFFF_FFFF != 0;
    let nan_b = b & 0x7FF0_0000_0000_0000 == 0x7FF0_0000_0000_0000 && b & 0x000F_FFFF_FFFF_FFFF != 0;
    !nan_a && !nan_b && (a == b || (a & 0x7FFF_FFFF_FFFF_FFFF == 0 && b & 0x7FFF_FFFF_FFFF_FFFF == 0))
}

/// Strict equality over the value domain: same-type pairs compare by value,
/// every cross-type pair is `false` — including `null` versus `undefined`,
/// which `==` would equate.
pub fn strict_equal(left: &Const, right: &Const) -> (r: bool)
    ensures
        r == strictly_equal(const_value(*left), const_value(*right)),
{
    match (left, right) {
        (Const::Bool(a), Const::Bool(b)) => *a == *b,
        (Const::Number(a), Const::Number(b)) => numbers_equal(*a, *b),
        (Const::Str(a), Const::Str(b)) => units_equal(a.as_slice(), b.as_slice()),
        (Const::BigInt(a), Const::BigInt(b)) => a.eq(b),
        (Const::Null, Const::Null) | (Const::Undefined, Const::Undefined) => true,
        _ => false,
    }
}

/// Whether the expression's value, IF it evaluates to completion, provably
/// boolean-converts to `b` (see [`truth_of`]).
pub fn truthiness(source: &SourceText, e: &TestExpr) -> (r: Option<bool>)
    requires
        strings_ok(*source, *e),
    ensures
        r == truth_of(*source, *e),
    decreases e, 1int,
{
    match e {
        TestExpr::Wrapped(inner) => truthiness(source, inner),
        TestExpr::Logical { op, left, right } => match op {
            LogicalOp::And => match truthiness(source, left) {
                Some(false) => Some(false),
                Some(true) => truthiness(source, right),
                None => if truthiness(source, right) == Some(false) {
                    Some(false)
                } else {
                    None
                },
            },
            LogicalOp::Or => match truthiness(source, left) {
                Some(true) => Some(true),
                Some(false) => truthiness(source, right),
                None => if truthiness(source, right) == Some(true) {
                    Some(true)
                } else {
                    None
                },
            },
            LogicalOp::Coalesce => None,
        },
        TestExpr::Sequence { last } => match last {
            Some(x) => truthiness(source, x),
            None => None,
        },
        _ => match value(source, e) {
            Some(constant) => Some(constant.truthy()),
            None => None,
        },
    }
}

/// The value the expression provably evaluates to IF it completes normally
/// (see [`value_of`]).
pub fn value(source: &SourceText, e: &TestExpr) -> (r: Option<Const>)
    requires
        strings_ok(*source, *e),
    ensures
        match r {
            Some(c) => value_of(*source, *e) == Some(const_value(c)),
            None => value_of(*source, *e) is None,
        },
    decreases e, 0int,
{
    match e {
        TestExpr::Wrapped(inner) => value(source, inner),
        TestExpr::BooleanLiteral(b) => Some(Const::Bool(*b)),
        TestExpr::NullLiteral => Some(Const::Null),
        TestExpr::NumericLiteral(n) => Some(Const::Number(*n)),
        TestExpr::StringLiteral { start, end } => Some(Const::Str(string_units(source, *start, *end))),
        TestExpr::BigIntLiteral(digits) => Some(Const::BigInt(digits.clone())),
        TestExpr::Unary { operator, argument } => match operator {
            UnaryOp::Void => Some(Const::Undefined),
            UnaryOp::LogicalNot => match truthiness(source, argument) {
                Some(t) => Some(Const::Bool(!t)),
                None => None,
            },
            UnaryOp::Negation => match value(source, argument) {
                Some(Const::Number(n)) => Some(Const::Number(n ^ 0x8000_0000_0000_0000)),
                _ => None,
            },
            UnaryOp::Other => None,
        },
        TestExpr::Binary { comparison, left, right } => match comparison {
            BinaryOp::StrictEquality | BinaryOp::StrictInequality => {
                let a = match value(source, left) {
                    Some(a) => a,
                    None => return None,
                };
                let b = match value(source, right) {
                    Some(b) => b,
                    None => return None,
                };
                let equal = strict_equal(&a, &b);
                let negated = match comparison {
                    BinaryOp::StrictInequality => true,
                    _ => false,
                };
                Some(Const::Bool(equal != negated))
            },
            BinaryOp::Other => None,
        },
        _ => None,
    }
}

/// A fold candidate, as the DCE verdicts see it: an `if` with its test's
/// truthiness, whether its consequent is a block, and (for an `else`)
/// whether its alternate is one; a `while` with its test's truthiness; a
/// `for` with its test's truthiness, `None` for a missing test.
pub enum DceCandidate {
    If { test: Option<bool>, consequent_block: bool, alternate_block: Option<bool> },
    While { test: Option<bool> },
    For { folded_test: Option<Option<bool>> },
}

/// The arm a fold kills.
pub enum DeadArm {
    /// a falsy `if` test's consequent; with an `else` the alternate walks on
    Consequent,
    /// a truthy `if` test's `else` block; the consequent walks on
    Alternate,
    /// a falsy loop test's body
    Body,
}

/// Which arm a candidate's fold kills, before the dead-region guard: a
/// falsy `if` kills its consequent (which must be a block when an `else`
/// follows), a truthy one kills its `else` (which must be a block; a dead
/// if-chain never folds); a falsy `while` or `for` test kills the body,
/// while a truthy, unknown or missing test kills nothing.
pub open spec fn dead_arm_of(c: DceCandidate) -> Option<DeadArm> {
    match c {
        DceCandidate::If { test, consequent_block, alternate_block } => match test {
            None => None,
            Some(false) => match alternate_block {
                None => Some(DeadArm::Consequent),
                Some(_) => if consequent_block {
                    Some(DeadArm::Consequent)
                } else {
                    None
                },
            },
            Some(true) => match alternate_block {
                Some(true) => Some(DeadArm::Alternate),
                _ => None,
            },
        },
        DceCandidate::While { test } => if test == Some(false) {
            Some(DeadArm::Body)
        } else {
            None
        },
        DceCandidate::For { folded_test } => if folded_test == Some(Some(false)) {
            Some(DeadArm::Body)
        } else {
            None
        },
    }
}

/// The DCE verdict's structural half for `if`, `while` and `for`: which
/// arm dies, if any. The fold then goes through [`report_blocker`] on that
/// arm and blanks it as [`dead_blank`] says.
pub fn dead_arm(c: &DceCandidate) -> (r: Option<DeadArm>)
    ensures
        r == dead_arm_of(*c),
{
    match c {
        DceCandidate::If { test, consequent_block, alternate_block } => match test {
            None => None,
            Some(false) => match alternate_block {
                None => Some(DeadArm::Consequent),
                Some(_) => if *consequent_block {
                    Some(DeadArm::Consequent)
                } else {
                    None
                },
            },
            Some(true) => match alternate_block {
                Some(true) => Some(DeadArm::Alternate),
                _ => None,
            },
        },
        DceCandidate::While { test } => match test {
            Some(false) => Some(DeadArm::Body),
            _ => None,
        },
        DceCandidate::For { folded_test } => match folded_test {
            Some(Some(false)) => Some(DeadArm::Body),
            _ => None,
        },
    }
}

/// A dead statement's shape: a block over its span, the empty statement,
/// or any other statement over its span.
pub enum ArmShape {
    Block { start: u32, end: u32 },
    Empty,
    Other { start: u32, end: u32 },
}

/// How a dead statement blanks, every line terminator kept: a block keeps
/// its braces and blanks its interior, the empty statement needs nothing,
/// any other statement becomes `;` plus spaces over its span.
pub enum DeadBlank {
    Interior { start: u32, end: u32 },
    Nothing,
    Semicolon { start: u32, end: u32 },
}

/// The blank of a dead statement (see [`DeadBlank`]).
pub open spec fn dead_blank_of(arm: ArmShape) -> DeadBlank {
    match arm {
        ArmShape::Block { start, end } => DeadBlank::Interior { start: (start + 1) as u32, end: (end - 1) as u32 },
        ArmShape::Empty => DeadBlank::Nothing,
        ArmShape::Other { start, end } => DeadBlank::Semicolon { start, end },
    }
}

/// The blank a dead statement gets: a block hollows between its braces, an
/// empty statement stays, any other statement becomes `;` plus spaces.
pub fn dead_blank(arm: &ArmShape) -> (r: DeadBlank)
    requires
        *arm matches ArmShape::Block { start, end } ==> start + 2 <= end,
    ensures
        r == dead_blank_of(*arm),
{
    match arm {
        ArmShape::Block { start, end } => DeadBlank::Interior { start: *start + 1, end: *end - 1 },
        ArmShape::Empty => DeadBlank::Nothing,
        ArmShape::Other { start, end } => DeadBlank::Semicolon { start: *start, end: *end },
    }
}

/// A fold only kills an arm that can never run: a loop body only under a
/// test known to be falsy, an `if`'s consequent only under a falsy test and
/// its `else` only under a truthy one. A test of unknown truthiness (and a
/// `for` without a test) kills nothing, whatever the statement.
pub proof fn lemma_dead_arms_never_run(c: DceCandidate)
    ensures
        dead_arm_of(c) matches Some(DeadArm::Body) ==> match c {
            DceCandidate::While { test } => test == Some(false),
            DceCandidate::For { folded_test } => folded_test == Some(Some(false)),
            DceCandidate::If { .. } => false,
        },
        dead_arm_of(c) matches Some(DeadArm::Consequent) ==> (c matches DceCandidate::If { test, .. }
            && test == Some(false)),
        dead_arm_of(c) matches Some(DeadArm::Alternate) ==> (c matches DceCandidate::If {
            test,
            alternate_block,
            ..
        } && test == Some(true) && alternate_block == Some(true)),
        (c matches DceCandidate::If { test, .. } && test is None) ==> dead_arm_of(c) is None,
        (c matches DceCandidate::While { test } && test != Some(false)) ==> dead_arm_of(c) is None,
        (c matches DceCandidate::For { folded_test } && folded_test != Some(Some(false)))
            ==> dead_arm_of(c) is None,
{
}

} // verus!
