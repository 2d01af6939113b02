//! Position and context guards for define substitution: the effective
//! expression after TS erasure, decorator heads, unary-parenthesis
//! contexts, write and delete targets, JSX tag positions, `with` bodies and
//! `this`/`arguments` nesting — pure queries about where a reference sits in
//! the flattened tree.

use vstd::prelude::*;

use crate::blanker::Blanker;
use crate::flattener::NodeKind;
use crate::tree::links_ok;

verus! {

/// The walk's view of the flattened tree that the define guards query: each
/// node's kind and span, its parent and children, the erasure state, and the
/// define gates (`with` and JSX presence).
pub struct Walker {
    pub src: String,
    pub blanker: Blanker,
    pub nodes: Vec<NodeKind>,
    pub spans: Vec<(u32, u32)>,
    pub parent: Vec<u32>,
    pub first_child: Vec<u32>,
    pub next_sibling: Vec<u32>,
    pub has_jsx: bool,
    pub has_with: bool,
    /// dead-region sweep visits left for this transpile
    pub guard_budget: u32,
    /// whether running out of sweep budget has been reported
    pub guard_budget_reported: bool,
    /// how many functions enclose the node being walked
    pub function_depth: u32,
}

/// Whether the arrays describe a flattened program: the program node first
/// (its parent `u32::MAX`), every other node's parent before it, and exact
/// child links.
pub open spec fn program_tree(
    nodes: Seq<NodeKind>,
    spans: Seq<(u32, u32)>,
    parent: Seq<u32>,
    fc: Seq<u32>,
    ns: Seq<u32>,
) -> bool {
    &&& nodes.len() > 0
    &&& spans.len() == nodes.len()
    &&& parent.len() == nodes.len()
    &&& fc.len() == nodes.len()
    &&& links_ok(fc, ns)
    &&& nodes[0] is Program
    &&& parent[0] == u32::MAX
    &&& forall|i: int| 0 < i < nodes.len() ==> #[trigger] parent[i] < i
}

/// The transparent TS wrappers: `as`, `satisfies`, `!` and instantiation.
pub open spec fn ts_wrapper(kind: NodeKind) -> bool {
    ||| kind is TSAsExpression
    ||| kind is TSSatisfiesExpression
    ||| kind is TSNonNullExpression
    ||| kind is TSInstantiationExpression
}

/// Climbing from `top` through plain parens and TS wrappers: the outermost
/// wrapper reached, and whether every link climbed was a plain paren (and
/// at least one was climbed from `idx`).
pub open spec fn up_from(
    nodes: Seq<NodeKind>,
    parent: Seq<u32>,
    idx: int,
    top: int,
    only_parens: bool,
) -> (int, bool)
    decreases top,
{
    if !(0 <= top < parent.len()) || parent[top] == u32::MAX || parent[top] >= top {
        (top, only_parens && top != idx)
    } else if nodes[parent[top] as int] is ParenthesizedExpression {
        up_from(nodes, parent, idx, parent[top] as int, only_parens)
    } else if ts_wrapper(nodes[parent[top] as int]) {
        up_from(nodes, parent, idx, parent[top] as int, false)
    } else {
        (top, only_parens && top != idx)
    }
}

/// The effective expression context of `idx` after erasure (see
/// [`up_from`]).
pub open spec fn unwrapped_up(nodes: Seq<NodeKind>, parent: Seq<u32>, idx: int) -> (int, bool) {
    up_from(nodes, parent, idx, idx, true)
}

/// The kinds whose wrapped expression is their first child.
pub open spec fn see_through(kind: NodeKind) -> bool {
    kind is ParenthesizedExpression || ts_wrapper(kind) || kind is ChainExpression
}

/// Descending from `node` through parens, TS wrappers and chain nodes to
/// the wrapped expression.
pub open spec fn down_from(nodes: Seq<NodeKind>, fc: Seq<u32>, node: int) -> int
    decreases fc.len() - node,
{
    if 0 <= node < fc.len() && node < nodes.len() && see_through(nodes[node]) && fc[node]
        != u32::MAX && node < fc[node] < fc.len() {
        down_from(nodes, fc, fc[node] as int)
    } else {
        node
    }
}

/// Climbing from `top` keeps to nodes at or below `top` that are `idx` or a
/// wrapper, never the program.
proof fn lemma_up_from(nodes: Seq<NodeKind>, parent: Seq<u32>, idx: int, top: int, only: bool)
    requires
        0 <= top <= idx < nodes.len(),
        parent.len() == nodes.len(),
        top == idx || see_through(nodes[top]),
    ensures
        0 <= up_from(nodes, parent, idx, top, only).0 <= top,
        up_from(nodes, parent, idx, top, only).0 == idx || see_through(
            nodes[up_from(nodes, parent, idx, top, only).0],
        ),
    decreases top,
{
    if 0 <= top < parent.len() && parent[top] != u32::MAX && parent[top] < top {
        let p = parent[top] as int;
        if nodes[p] is ParenthesizedExpression || ts_wrapper(nodes[p]) {
            lemma_up_from(nodes, parent, idx, p, only);
            lemma_up_from(nodes, parent, idx, p, false);
        }
    }
}

impl Walker {
    /// Whether the walker's arrays describe a flattened program.
    pub open spec fn tree_ok(&self) -> bool {
        program_tree(self.nodes@, self.spans@, self.parent@, self.first_child@, self.next_sibling@)
    }

    /// The parent of `idx` (`u32::MAX` for the program).
    pub fn parent_of(&self, idx: u32) -> (r: u32)
        requires
            self.tree_ok(),
            idx < self.nodes@.len(),
        ensures
            r == self.parent@[idx as int],
    {
        self.parent[idx as usize]
    }

    /// The effective expression context of a reference after erasure: skips
    /// plain parens and the transparent TS wrappers upward. Returns the
    /// outermost wrapper (the reference itself when unwrapped) and whether
    /// every link is a plain paren — only an all-paren chain may have its
    /// span replaced.
    pub fn unwrap_up(&self, idx: u32) -> (r: (u32, bool))
        requires
            self.tree_ok(),
            idx < self.nodes@.len(),
        ensures
            (r.0 as int, r.1) == unwrapped_up(self.nodes@, self.parent@, idx as int),
            r.0 <= idx,
            r.0 == idx || see_through(self.nodes@[r.0 as int]),
    {
        proof {
            lemma_up_from(self.nodes@, self.parent@, idx as int, idx as int, true);
        }
        let mut top = idx;
        let mut only_parens = true;
        loop
            invariant
                self.tree_ok(),
                idx < self.nodes@.len(),
                top <= idx,
                top == idx || see_through(self.nodes@[top as int]),
                up_from(self.nodes@, self.parent@, idx as int, top as int, only_parens)
                    == unwrapped_up(self.nodes@, self.parent@, idx as int),
            decreases top,
        {
            proof {
                lemma_up_from(self.nodes@, self.parent@, idx as int, top as int, only_parens);
            }
            let parent = self.parent[top as usize];
            if parent == u32::MAX {
                return (top, only_parens && top != idx);
            }
            proof {
                assert(top > 0) by {
                    if top == 0 {
                        assert(self.parent@[0] == u32::MAX);
                    }
                }
            }
            match &self.nodes[parent as usize] {
                NodeKind::ParenthesizedExpression => top = parent,
                NodeKind::TSAsExpression | NodeKind::TSSatisfiesExpression
                | NodeKind::TSNonNullExpression | NodeKind::TSInstantiationExpression => {
                    only_parens = false;
                    top = parent;
                },
                _ => return (top, only_parens && top != idx),
            }
        }
    }

    /// The same transparency downward: the wrapped expression of a paren,
    /// TS wrapper or chain node — repeated, since wrappers nest (`((a)).b`).
    pub fn unwrap_down(&self, start: u32) -> (r: u32)
        requires
            self.tree_ok(),
            start < self.nodes@.len(),
        ensures
            r as int == down_from(self.nodes@, self.first_child@, start as int),
            r < self.nodes@.len(),
    {
        let mut node = start;
        loop
            invariant
                self.tree_ok(),
                start < self.nodes@.len(),
                node < self.nodes@.len(),
                down_from(self.nodes@, self.first_child@, node as int) == down_from(
                    self.nodes@,
                    self.first_child@,
                    start as int,
                ),
            decreases self.nodes@.len() - node,
        {
            let through = match &self.nodes[node as usize] {
                NodeKind::ParenthesizedExpression | NodeKind::TSAsExpression
                | NodeKind::TSSatisfiesExpression | NodeKind::TSNonNullExpression
                | NodeKind::TSInstantiationExpression | NodeKind::ChainExpression => true,
                _ => false,
            };
            let next = if through && self.first_child[node as usize] != u32::MAX {
                Some(self.first_child[node as usize])
            } else {
                None
            };
            match next {
                Some(child) if child != node => node = child,
                _ => return node,
            }
        }
    }
}

/// Whether some non-arrow function encloses `idx` (climbing parents).
pub open spec fn in_function(nodes: Seq<NodeKind>, parent: Seq<u32>, idx: int) -> bool
    decreases idx,
{
    if !(0 <= idx < parent.len()) || parent[idx] == u32::MAX || parent[idx] >= idx {
        false
    } else if nodes[parent[idx] as int] is Function {
        true
    } else {
        in_function(nodes, parent, parent[idx] as int)
    }
}

/// Whether `idx`, or a node it climbs through, lies inside the body of an
/// enclosing `with` statement.
pub open spec fn in_with_body(
    nodes: Seq<NodeKind>,
    spans: Seq<(u32, u32)>,
    parent: Seq<u32>,
    idx: int,
) -> bool
    decreases idx,
{
    if !(0 <= idx < parent.len()) || parent[idx] == u32::MAX || parent[idx] >= idx {
        false
    } else if nodes[parent[idx] as int] matches NodeKind::WithStatement { body_start, body_end }
        && spans[idx].0 >= body_start && spans[idx].1 <= body_end {
        true
    } else {
        in_with_body(nodes, spans, parent, parent[idx] as int)
    }
}

/// Whether the span of `idx` lies within `[start, end]`.
pub open spec fn span_within(spans: Seq<(u32, u32)>, idx: int, start: u32, end: u32) -> bool {
    spans[idx].0 >= start && spans[idx].1 <= end
}

/// Whether a `this` at `idx` has its own binding: climbing parents, a
/// non-arrow function or static block binds it; a decorator passes to the
/// node enclosing the decorated member; a field or accessor binds it unless
/// the climb came up through its computed key.
pub open spec fn this_bound(
    nodes: Seq<NodeKind>,
    spans: Seq<(u32, u32)>,
    parent: Seq<u32>,
    idx: int,
) -> bool
    decreases idx,
{
    if !(0 <= idx < parent.len()) || parent[idx] == u32::MAX || parent[idx] >= idx {
        false
    } else {
        let p = parent[idx] as int;
        match nodes[p] {
            NodeKind::Function { .. } | NodeKind::StaticBlock => true,
            NodeKind::Decorator => if parent[p] != u32::MAX && parent[p] < p {
                this_bound(nodes, spans, parent, parent[p] as int)
            } else {
                false
            },
            NodeKind::AccessorProperty { key_start, key_end } => if span_within(
                spans,
                idx,
                key_start,
                key_end,
            ) {
                this_bound(nodes, spans, parent, p)
            } else {
                true
            },
            NodeKind::PropertyDefinition { key_start, key_end } => if span_within(
                spans,
                idx,
                key_start,
                key_end,
            ) {
                this_bound(nodes, spans, parent, p)
            } else {
                true
            },
            _ => this_bound(nodes, spans, parent, p),
        }
    }
}

/// Climbing JSX member links from `top`: `Some(member_root)` at an opening
/// or closing tag, `None` anywhere else.
pub open spec fn jsx_position_from(
    nodes: Seq<NodeKind>,
    parent: Seq<u32>,
    top: int,
    member_root: bool,
) -> Option<bool>
    decreases top,
{
    if !(0 <= top < parent.len()) || parent[top] == u32::MAX || parent[top] >= top {
        None
    } else if nodes[parent[top] as int] is JSXMemberExpression {
        jsx_position_from(nodes, parent, parent[top] as int, true)
    } else if nodes[parent[top] as int] is JSXOpeningElement || nodes[parent[top] as int] is JSXClosingElement {
        Some(member_root)
    } else {
        None
    }
}

impl Walker {
    /// Whether an `arguments` reference sits inside some non-arrow function
    /// (parameters, defaults and body alike): arrows pass through; a
    /// top-level reference reads a true global.
    pub fn arguments_is_nested(&self, idx: u32) -> (r: bool)
        requires
            self.tree_ok(),
            idx < self.nodes@.len(),
        ensures
            r == in_function(self.nodes@, self.parent@, idx as int),
    {
        let mut node = idx;
        loop
            invariant
                self.tree_ok(),
                node < self.nodes@.len(),
                in_function(self.nodes@, self.parent@, node as int) == in_function(
                    self.nodes@,
                    self.parent@,
                    idx as int,
                ),
            decreases node,
        {
            let parent = self.parent[node as usize];
            if parent == u32::MAX {
                return false;
            }
            proof {
                if node == 0 {
                    assert(self.parent@[0] == u32::MAX);
                }
            }
            if let NodeKind::Function { .. } = &self.nodes[parent as usize] {
                return true;
            }
            node = parent;
        }
    }

    /// Whether the node sits inside a `with` body, where a name may bind to
    /// the with object dynamically; answered without a climb when the file
    /// has no `with`.
    pub fn inside_with(&self, idx: u32) -> (r: bool)
        requires
            self.tree_ok(),
            idx < self.nodes@.len(),
        ensures
            r == (self.has_with && in_with_body(self.nodes@, self.spans@, self.parent@, idx as int)),
    {
        if !self.has_with {
            return false;
        }
        let mut node = idx;
        loop
            invariant
                self.tree_ok(),
                self.has_with,
                node < self.nodes@.len(),
                in_with_body(self.nodes@, self.spans@, self.parent@, node as int) == in_with_body(
                    self.nodes@,
                    self.spans@,
                    self.parent@,
                    idx as int,
                ),
            decreases node,
        {
            let parent = self.parent[node as usize];
            if parent == u32::MAX {
                return false;
            }
            proof {
                if node == 0 {
                    assert(self.parent@[0] == u32::MAX);
                }
            }
            if let NodeKind::WithStatement { body_start, body_end } = &self.nodes[parent as usize] {
                let span = self.spans[node as usize];
                if span.0 >= *body_start && span.1 <= *body_end {
                    return true;
                }
            }
            node = parent;
        }
    }

    /// Whether a `this` expression sits in a position with its own `this`
    /// binding: inside a non-arrow function (arrows inherit), a static
    /// block, or a class field initializer; computed member keys evaluate in
    /// the enclosing `this`, and decorators in the scope around the
    /// decorated member.
    pub fn this_is_nested(&self, idx: u32) -> (r: bool)
        requires
            self.tree_ok(),
            idx < self.nodes@.len(),
        ensures
            r == this_bound(self.nodes@, self.spans@, self.parent@, idx as int),
    {
        let mut node = idx;
        loop
            invariant
                self.tree_ok(),
                node < self.nodes@.len(),
                this_bound(self.nodes@, self.spans@, self.parent@, node as int) == this_bound(
                    self.nodes@,
                    self.spans@,
                    self.parent@,
                    idx as int,
                ),
            decreases node,
        {
            let parent = self.parent[node as usize];
            if parent == u32::MAX {
                return false;
            }
            proof {
                if node == 0 {
                    assert(self.parent@[0] == u32::MAX);
                }
            }
            match &self.nodes[parent as usize] {
                NodeKind::Function { .. } | NodeKind::StaticBlock => return true,
                NodeKind::Decorator => {
                    proof {
                        assert(parent > 0) by {
                            if parent == 0 {
                                assert(self.nodes@[0] is Program);
                            }
                        }
                    }
                    node = self.parent[parent as usize];
                    continue;
                },
                NodeKind::AccessorProperty { key_start, key_end } => {
                    let span = self.spans[node as usize];
                    if span.0 >= *key_start && span.1 <= *key_end {
                        node = parent;
                        continue;
                    }
                    return true;
                },
                NodeKind::PropertyDefinition { key_start, key_end } => {
                    let span = self.spans[node as usize];
                    if span.0 >= *key_start && span.1 <= *key_end {
                        node = parent;
                        continue;
                    }
                    return true;
                },
                _ => {},
            }
            node = parent;
        }
    }

    /// Whether the reference sits in a JSX tag position, and whether the
    /// tag is a member expression rooted at it; `None` outside tags (and
    /// without a climb when the file has no JSX).
    pub fn jsx_tag_position(&self, idx: u32) -> (r: Option<bool>)
        requires
            self.tree_ok(),
            0 < idx < self.nodes@.len(),
        ensures
            r == if self.has_jsx {
                jsx_position_from(self.nodes@, self.parent@, idx as int, false)
            } else {
                None
            },
    {
        if !self.has_jsx {
            return None;
        }
        let mut top = idx;
        let mut member_root = false;
        loop
            invariant
                self.tree_ok(),
                self.has_jsx,
                0 < top < self.nodes@.len(),
                jsx_position_from(self.nodes@, self.parent@, top as int, member_root)
                    == jsx_position_from(self.nodes@, self.parent@, idx as int, false),
            decreases top,
        {
            let parent = self.parent[top as usize];
            match &self.nodes[parent as usize] {
                NodeKind::JSXMemberExpression { .. } => {
                    proof {
                        assert(parent > 0) by {
                            if parent == 0 {
                                assert(self.nodes@[0] is Program);
                            }
                        }
                    }
                    member_root = true;
                    top = parent;
                },
                NodeKind::JSXOpeningElement | NodeKind::JSXClosingElement => return Some(member_root),
                _ => return None,
            }
        }
    }
}

/// The node a reference's context is judged at: the outermost paren or TS
/// wrapper around it.
pub open spec fn context_top(nodes: Seq<NodeKind>, parent: Seq<u32>, idx: int) -> int {
    unwrapped_up(nodes, parent, idx).0
}

/// Whether the reference is deleted as a bare identifier: its context is
/// the operand of a `delete`.
pub open spec fn delete_target(
    nodes: Seq<NodeKind>,
    spans: Seq<(u32, u32)>,
    parent: Seq<u32>,
    idx: int,
) -> bool {
    let top = context_top(nodes, parent, idx);
    nodes[parent[top] as int] matches NodeKind::UnaryExpression { delete, argument_start } && delete
        && argument_start == spans[top].0
}

/// Whether the reference is written: the target of an assignment, update
/// or loop-head binding, or a binding of a destructuring pattern (a
/// default's initializer and a computed key read).
pub open spec fn write_target(
    nodes: Seq<NodeKind>,
    spans: Seq<(u32, u32)>,
    parent: Seq<u32>,
    idx: int,
) -> bool {
    let top = context_top(nodes, parent, idx);
    let start = spans[top].0;
    parent[top] != u32::MAX && match nodes[parent[top] as int] {
        NodeKind::AssignmentExpression { left_start } => left_start == start,
        NodeKind::ForInStatement { left_start } => left_start == start,
        NodeKind::ForOfStatement { left_start, .. } => left_start == start,
        NodeKind::UpdateExpression => true,
        NodeKind::AssignmentTargetPropertyIdentifier { binding_start } => binding_start == start,
        NodeKind::ArrayAssignmentTarget => true,
        NodeKind::ObjectAssignmentTarget => true,
        NodeKind::AssignmentTargetRest => true,
        NodeKind::AssignmentTargetWithDefault { binding_start } => binding_start == start,
        NodeKind::AssignmentTargetPropertyProperty { binding_start } => binding_start == start,
        _ => false,
    }
}

/// Whether a unary-precedence splice at the reference would land where
/// only a high-precedence operand is grammatical: a member's object, the
/// left side of `**`, a `new` or call callee, or a class heritage — unless
/// a paren already groups it.
pub open spec fn unary_paren_context(
    nodes: Seq<NodeKind>,
    spans: Seq<(u32, u32)>,
    parent: Seq<u32>,
    idx: int,
) -> bool {
    let top = context_top(nodes, parent, idx);
    let start = spans[top].0;
    if nodes[top] is ParenthesizedExpression || parent[top] == u32::MAX {
        false
    } else {
        match nodes[parent[top] as int] {
            NodeKind::StaticMemberExpression { object_start } => object_start == start,
            NodeKind::ComputedMemberExpression { object_start } => object_start == start,
            NodeKind::PrivateFieldExpression { object_start } => object_start == start,
            NodeKind::BinaryExpression { exponential, left_start } => exponential && left_start
                == start,
            NodeKind::NewExpression { callee_start } => callee_start == start,
            NodeKind::Class { heritage_start } => heritage_start == Some(start),
            NodeKind::CallExpression { callee_start } => callee_start == start,
            _ => false,
        }
    }
}

/// The paren or wrapper climbed to is never the program (and from the
/// program itself nothing is climbed).
proof fn lemma_top_not_program(w: &Walker, idx: int)
    requires
        w.tree_ok(),
        0 <= idx < w.nodes@.len(),
    ensures
        0 <= context_top(w.nodes@, w.parent@, idx) <= idx,
        idx > 0 ==> 0 < context_top(w.nodes@, w.parent@, idx),
        idx > 0 ==> w.parent@[context_top(w.nodes@, w.parent@, idx)] < context_top(w.nodes@, w.parent@, idx),
        idx == 0 ==> context_top(w.nodes@, w.parent@, idx) == 0,
{
    lemma_up_from(w.nodes@, w.parent@, idx, idx, true);
    let top = context_top(w.nodes@, w.parent@, idx);
    if top == 0 {
        assert(w.nodes@[0] is Program);
    }
}

impl Walker {
    /// Whether the reference is deleted as a bare identifier — `delete
    /// FLAG` must keep deleting the global property instead of splicing a
    /// no-op (`delete 1`).
    pub fn is_delete_target(&self, idx: u32) -> (r: bool)
        requires
            self.tree_ok(),
            0 < idx < self.nodes@.len(),
        ensures
            r == delete_target(self.nodes@, self.spans@, self.parent@, idx as int),
    {
        let (top, _) = self.unwrap_up(idx);
        proof {
            lemma_top_not_program(self, idx as int);
        }
        let parent = self.parent[top as usize];
        match &self.nodes[parent as usize] {
            NodeKind::UnaryExpression { delete, argument_start } => *delete && *argument_start
                == self.spans[top as usize].0,
            _ => false,
        }
    }

    /// Whether the node is the target of an assignment, update or loop-head
    /// binding — seen through transparent wrappers (`FLAG! = 2`,
    /// `(FLAG as any) = 2`), with a span-start check where the parent also
    /// holds a read position.
    pub fn is_write_target(&self, idx: u32) -> (r: bool)
        requires
            self.tree_ok(),
            idx < self.nodes@.len(),
        ensures
            r == write_target(self.nodes@, self.spans@, self.parent@, idx as int),
    {
        let (top, _) = self.unwrap_up(idx);
        proof {
            lemma_top_not_program(self, idx as int);
        }
        let parent = self.parent[top as usize];
        if parent == u32::MAX {
            return false;
        }
        let start = self.spans[top as usize].0;
        match &self.nodes[parent as usize] {
            NodeKind::AssignmentExpression { left_start } => *left_start == start,
            NodeKind::ForInStatement { left_start } => *left_start == start,
            NodeKind::ForOfStatement { left_start, .. } => *left_start == start,
            NodeKind::UpdateExpression => true,
            NodeKind::AssignmentTargetPropertyIdentifier { binding_start } => *binding_start
                == start,
            NodeKind::ArrayAssignmentTarget | NodeKind::ObjectAssignmentTarget
            | NodeKind::AssignmentTargetRest => true,
            NodeKind::AssignmentTargetWithDefault { binding_start } => *binding_start == start,
            NodeKind::AssignmentTargetPropertyProperty { binding_start } => *binding_start
                == start,
            _ => false,
        }
    }

    /// Whether a unary-precedence splice (`-1`, `void 0`) at this reference
    /// needs parentheses (see [`unary_paren_context`]).
    pub fn context_needs_unary_parens(&self, idx: u32) -> (r: bool)
        requires
            self.tree_ok(),
            idx < self.nodes@.len(),
        ensures
            r == unary_paren_context(self.nodes@, self.spans@, self.parent@, idx as int),
    {
        let (top, _) = self.unwrap_up(idx);
        proof {
            lemma_top_not_program(self, idx as int);
        }
        if let NodeKind::ParenthesizedExpression = &self.nodes[top as usize] {
            return false;
        }
        let parent = self.parent[top as usize];
        if parent == u32::MAX {
            return false;
        }
        let start = self.spans[top as usize].0;
        match &self.nodes[parent as usize] {
            NodeKind::StaticMemberExpression { object_start } => *object_start == start,
            NodeKind::ComputedMemberExpression { object_start } => *object_start == start,
            NodeKind::PrivateFieldExpression { object_start } => *object_start == start,
            NodeKind::BinaryExpression { exponential, left_start } => *exponential && *left_start
                == start,
            NodeKind::NewExpression { callee_start } => *callee_start == start,
            NodeKind::Class { heritage_start } => match heritage_start {
                Some(h) => *h == start,
                None => false,
            },
            NodeKind::CallExpression { callee_start } => *callee_start == start,
            _ => false,
        }
    }
}

/// The bytes that can open a new statement when a splice starts a line:
/// `(`, `[`, `` ` ``, `+` and `-`.
pub open spec fn hazard_byte(b: u8) -> bool {
    b == 0x28 || b == 0x5B || b == 0x60 || b == 0x2B || b == 0x2D
}

/// Climbing from `node` while each ancestor starts at `target_start`: the
/// expression statement reached, if any.
pub open spec fn statement_above(
    nodes: Seq<NodeKind>,
    spans: Seq<(u32, u32)>,
    parent: Seq<u32>,
    node: int,
    target_start: u32,
) -> Option<int>
    decreases node,
{
    if !(0 <= node < parent.len()) || parent[node] == u32::MAX || parent[node] >= node
        || spans[parent[node] as int].0 != target_start {
        None
    } else if nodes[parent[node] as int] is ExpressionStatement {
        Some(parent[node] as int)
    } else {
        statement_above(nodes, spans, parent, parent[node] as int, target_start)
    }
}

/// Whether a splice of `text` over a target starting at `target_start`
/// needs a leading `;`: the text starts with a hazard byte and the splice
/// starts an expression statement that stands in a statement list.
pub open spec fn needs_leading_semicolon(
    nodes: Seq<NodeKind>,
    spans: Seq<(u32, u32)>,
    parent: Seq<u32>,
    idx: int,
    target_start: u32,
    text: Seq<char>,
) -> bool {
    let bytes = vstd::utf8::encode_utf8(text);
    &&& bytes.len() > 0
    &&& hazard_byte(bytes[0])
    &&& match statement_above(nodes, spans, parent, context_top(nodes, parent, idx), target_start) {
        Some(statement) => {
            let list = nodes[parent[statement] as int];
            crate::scopes::scope_container(list) || list is SwitchCase
        },
        None => false,
    }
}

/// Climbing a decorator's @-expression from `node`: member links pass, at
/// most one call whose callee starts where the climb does passes, and the
/// decorator itself answers the head reached.
pub open spec fn head_from(
    nodes: Seq<NodeKind>,
    spans: Seq<(u32, u32)>,
    parent: Seq<u32>,
    node: int,
    calls: int,
) -> Option<int>
    decreases node,
{
    if !(0 <= node < parent.len()) || parent[node] == u32::MAX || parent[node] >= node {
        None
    } else {
        let p = parent[node] as int;
        match nodes[p] {
            NodeKind::StaticMemberExpression { .. } => head_from(nodes, spans, parent, p, calls),
            NodeKind::ComputedMemberExpression { .. } => head_from(nodes, spans, parent, p, calls),
            NodeKind::PrivateFieldExpression { .. } => head_from(nodes, spans, parent, p, calls),
            NodeKind::CallExpression { callee_start } => if calls == 0 && callee_start
                == spans[node].0 {
                head_from(nodes, spans, parent, p, calls + 1)
            } else {
                None
            },
            NodeKind::Decorator => Some(node),
            _ => None,
        }
    }
}

/// Whether every link from `node` up to `head` is a static member (the
/// head itself may be the one call or a static member).
pub open spec fn static_up_to(nodes: Seq<NodeKind>, parent: Seq<u32>, node: int, head: int) -> bool
    decreases node,
{
    if node == head {
        true
    } else if !(0 <= node < parent.len()) || parent[node] == u32::MAX || parent[node] >= node {
        false
    } else if parent[node] == head {
        nodes[head] is CallExpression || nodes[head] is StaticMemberExpression
    } else if !(nodes[parent[node] as int] is StaticMemberExpression) {
        false
    } else {
        static_up_to(nodes, parent, parent[node] as int, head)
    }
}

/// Whether a string-literal splice at the reference would stand as a whole
/// expression statement (and so read as a directive).
pub open spec fn directive_position(
    nodes: Seq<NodeKind>,
    spans: Seq<(u32, u32)>,
    parent: Seq<u32>,
    idx: int,
) -> bool {
    let top = context_top(nodes, parent, idx);
    &&& !(nodes[top] is ParenthesizedExpression)
    &&& nodes[parent[top] as int] matches NodeKind::ExpressionStatement {
        expression_start,
        expression_end,
    } && expression_start == spans[top].0 && expression_end == spans[top].1
}

/// Climbing from the program's nodes never reaches past the program.
proof fn lemma_climb_nodes(w: &Walker, node: int)
    requires
        w.tree_ok(),
        0 < node < w.nodes@.len(),
    ensures
        w.parent@[node] < node,
{
}

impl Walker {
    /// Whether a splice whose text starts with an ASI hazard character
    /// lands at the head of an expression statement in a statement list,
    /// where it needs a leading `;` (see [`needs_leading_semicolon`]).
    /// Clause bodies are excluded: nothing precedes the statement there.
    pub fn statement_needs_leading_semicolon(&self, idx: u32, target: (u32, u32), text: &str) -> (r:
        bool)
        requires
            self.tree_ok(),
            idx < self.nodes@.len(),
        ensures
            r == needs_leading_semicolon(
                self.nodes@,
                self.spans@,
                self.parent@,
                idx as int,
                target.0,
                text@,
            ),
    {
        let bytes = text.as_bytes();
        if bytes.len() == 0 {
            return false;
        }
        let first = bytes[0];
        if !(first == 0x28 || first == 0x5B || first == 0x60 || first == 0x2B || first == 0x2D) {
            return false;
        }
        let (top, _) = self.unwrap_up(idx);
        proof {
            lemma_top_not_program(self, idx as int);
        }
        let mut node = top;
        loop
            invariant
                self.tree_ok(),
                node < self.nodes@.len(),
                statement_above(self.nodes@, self.spans@, self.parent@, node as int, target.0)
                    == statement_above(
                    self.nodes@,
                    self.spans@,
                    self.parent@,
                    top as int,
                    target.0,
                ),
                top == context_top(self.nodes@, self.parent@, idx as int),
                bytes@ == vstd::utf8::encode_utf8(text@),
                bytes@.len() > 0 && hazard_byte(bytes@[0]),
            decreases node,
        {
            let parent = self.parent[node as usize];
            if parent == u32::MAX || self.spans[parent as usize].0 != target.0 {
                return false;
            }
            proof {
                if node == 0 {
                    assert(self.parent@[0] == u32::MAX);
                }
            }
            if let NodeKind::ExpressionStatement { .. } = &self.nodes[parent as usize] {
                proof {
                    assert(parent > 0) by {
                        if parent == 0 {
                            assert(self.nodes@[0] is Program);
                        }
                    }
                }
                let list = self.parent[parent as usize];
                let kind = &self.nodes[list as usize];
                return crate::scopes::is_enum_scope_container(kind) || match kind {
                    NodeKind::SwitchCase => true,
                    _ => false,
                };
            }
            node = parent;
        }
    }

    /// The decorator whose @-expression head contains this reference — the
    /// expression after `@`, its member chain, or the callee of its single
    /// call; argument positions are ordinary expressions and give `None`.
    pub fn decorator_head(&self, idx: u32) -> (r: Option<u32>)
        requires
            self.tree_ok(),
            0 < idx < self.nodes@.len(),
        ensures
            r matches Some(h) ==> head_from(
                self.nodes@,
                self.spans@,
                self.parent@,
                context_top(self.nodes@, self.parent@, idx as int),
                0,
            ) == Some(h as int),
            r is None ==> head_from(
                self.nodes@,
                self.spans@,
                self.parent@,
                context_top(self.nodes@, self.parent@, idx as int),
                0,
            ) is None,
    {
        let (top, _) = self.unwrap_up(idx);
        proof {
            lemma_top_not_program(self, idx as int);
        }
        let mut node = top;
        let mut calls: u32 = 0;
        loop
            invariant
                self.tree_ok(),
                0 < node < self.nodes@.len(),
                calls <= 1,
                head_from(self.nodes@, self.spans@, self.parent@, node as int, calls as int)
                    == head_from(self.nodes@, self.spans@, self.parent@, top as int, 0),
                top == context_top(self.nodes@, self.parent@, idx as int),
            decreases node,
        {
            let parent = self.parent[node as usize];
            let start = self.spans[node as usize].0;
            proof {
                lemma_climb_nodes(self, node as int);
            }
            match &self.nodes[parent as usize] {
                NodeKind::StaticMemberExpression { .. } | NodeKind::ComputedMemberExpression { .. }
                | NodeKind::PrivateFieldExpression { .. } => {
                    proof {
                        assert(parent > 0) by {
                            if parent == 0 {
                                assert(self.nodes@[0] is Program);
                            }
                        }
                    }
                    node = parent;
                },
                NodeKind::CallExpression { callee_start } => {
                    if calls == 0 && *callee_start == start {
                        proof {
                            assert(parent > 0) by {
                                if parent == 0 {
                                    assert(self.nodes@[0] is Program);
                                }
                            }
                        }
                        calls += 1;
                        node = parent;
                    } else {
                        return None;
                    }
                },
                NodeKind::Decorator => return Some(node),
                _ => return None,
            }
        }
    }

    /// Whether every link from the spliced node up to the decorator head is
    /// a static member expression — computed or private links force the
    /// whole-head parentheses.
    pub fn chain_above_is_static(&self, idx: u32, head: u32) -> (r: bool)
        requires
            self.tree_ok(),
            0 < idx < self.nodes@.len(),
            head < self.nodes@.len(),
        ensures
            r == static_up_to(
                self.nodes@,
                self.parent@,
                context_top(self.nodes@, self.parent@, idx as int),
                head as int,
            ),
    {
        let (top, _) = self.unwrap_up(idx);
        proof {
            lemma_top_not_program(self, idx as int);
        }
        let mut node = top;
        loop
            invariant
                self.tree_ok(),
                0 < node < self.nodes@.len(),
                head < self.nodes@.len(),
                static_up_to(self.nodes@, self.parent@, node as int, head as int) == static_up_to(
                    self.nodes@,
                    self.parent@,
                    top as int,
                    head as int,
                ),
                top == context_top(self.nodes@, self.parent@, idx as int),
            decreases node,
        {
            if node == head {
                return true;
            }
            let parent = self.parent[node as usize];
            proof {
                lemma_climb_nodes(self, node as int);
            }
            if parent == head {
                return match &self.nodes[head as usize] {
                    NodeKind::CallExpression { .. } | NodeKind::StaticMemberExpression { .. } => true,
                    _ => false,
                };
            }
            match &self.nodes[parent as usize] {
                NodeKind::StaticMemberExpression { .. } => {},
                _ => return false,
            }
            proof {
                assert(parent > 0) by {
                    if parent == 0 {
                        assert(self.nodes@[0] is Program);
                    }
                }
            }
            node = parent;
        }
    }

    /// A string literal standing as the whole expression statement gets
    /// parenthesized: spliced bare it would become a directive. The check
    /// sees through TS wrappers but not through a paren, which already
    /// prints safe.
    pub fn wrap_directive(&self, idx: u32, value: &crate::defines::DefineValue, text: String) -> (r:
        String)
        requires
            self.tree_ok(),
            0 < idx < self.nodes@.len(),
        ensures
            r@ == if value.string && directive_position(
                self.nodes@,
                self.spans@,
                self.parent@,
                idx as int,
            ) {
                seq!['('] + text@ + seq![')']
            } else {
                text@
            },
    {
        if !value.string {
            return text;
        }
        let (top, _) = self.unwrap_up(idx);
        proof {
            lemma_top_not_program(self, idx as int);
        }
        if let NodeKind::ParenthesizedExpression = &self.nodes[top as usize] {
            return text;
        }
        let top_span = self.spans[top as usize];
        let parent = self.parent[top as usize];
        let wrapped = match &self.nodes[parent as usize] {
            NodeKind::ExpressionStatement { expression_start, expression_end } => *expression_start
                == top_span.0 && *expression_end == top_span.1,
            _ => false,
        };
        if wrapped {
            proof {
                reveal_strlit("(");
                reveal_strlit(")");
            }
            let open = "(".to_owned();
            let inner = open.concat(text.as_str());
            inner.concat(")")
        } else {
            text
        }
    }
}

/// Whether splicing at a JSX tag position would be wrong: only an
/// identifier or `this` root can be a tag, an escaped spelling cannot be
/// spliced into one, and a bare lowercase-initial splice would flip a
/// component reference to an intrinsic string tag (a member-tag root or a
/// dotted splice is a reference regardless of case). Outside tag positions
/// (`None`) nothing is wrong.
pub open spec fn jsx_violation(
    position: Option<bool>,
    root: Option<crate::defines::ChainRoot>,
    text: Seq<char>,
) -> bool {
    match position {
        None => false,
        Some(member_root) => {
            ||| !(root matches Some(crate::defines::ChainRoot::Ident(_)) || root matches Some(
                crate::defines::ChainRoot::This,
            ))
            ||| text.contains('\\')
            ||| (!member_root && !text.contains('.') && text.len() > 0 && 'a' <= text[0] <= 'z')
        },
    }
}

/// Whether `cs` holds `c`.
fn has_char(cs: &[char], c: char) -> (r: bool)
    ensures
        r == cs@.contains(c),
{
    let mut i: usize = 0;
    while i < cs.len()
        invariant
            i <= cs@.len(),
            forall|k: int| 0 <= k < i ==> cs@[k] != c,
        decreases cs@.len() - i,
    {
        if cs[i] == c {
            return true;
        }
        i += 1;
    }
    false
}

/// Whether the last edit starting before `end` reaches past `start`.
pub open spec fn pushed_overlap(edits: Seq<(u8, u32, u32, u32)>, start: u32, end: u32) -> bool {
    let k = crate::search::last_start_before(edits, end, true);
    k >= 0 && edits[k].2 > start
}

impl Walker {
    /// Whether splicing this value's `text` at a JSX tag position would be
    /// wrong (see [`jsx_violation`]).
    pub fn jsx_tag_violation(&self, idx: u32, value: &crate::defines::DefineValue, text: &str) -> (r:
        bool)
        requires
            self.tree_ok(),
            0 < idx < self.nodes@.len(),
        ensures
            r == jsx_violation(
                if self.has_jsx {
                    jsx_position_from(self.nodes@, self.parent@, idx as int, false)
                } else {
                    None
                },
                value.root,
                text@,
            ),
    {
        let member_root = match self.jsx_tag_position(idx) {
            Some(m) => m,
            None => return false,
        };
        let root_ok = match &value.root {
            Some(crate::defines::ChainRoot::Ident(_)) | Some(crate::defines::ChainRoot::This) => true,
            _ => false,
        };
        let (chars, _) = crate::chars::chars_with_offsets(text);
        if !root_ok || has_char(chars.as_slice(), '\\') {
            return true;
        }
        !member_root && !has_char(chars.as_slice(), '.') && chars.len() > 0 && 'a' <= chars[0]
            && chars[0] <= 'z'
    }

    /// The guards shared by the identifier and member substitution paths:
    /// the erasure pass may already have blanked the span (splicing into it
    /// would corrupt it), and a literal cannot be written through.
    pub fn define_blocked(&self, idx: u32, span: (u32, u32), value: &crate::defines::DefineValue) -> (r:
        bool)
        requires
            self.tree_ok(),
            idx < self.nodes@.len(),
        ensures
            write_target(self.nodes@, self.spans@, self.parent@, idx as int) && !value.assignable
                ==> r,
            crate::search::starts_partitioned(self.blanker.output.edits(), span.1, true) ==> r == (
            pushed_overlap(self.blanker.output.edits(), span.0, span.1) || (write_target(
                self.nodes@,
                self.spans@,
                self.parent@,
                idx as int,
            ) && !value.assignable)),
    {
        self.blanker.output.overlaps_pushed_range(span.0, span.1) || (self.is_write_target(idx)
            && !value.assignable)
    }
}

/// What `char::is_alphabetic` answers for `c` (the Unicode `Alphabetic`
/// property).
pub uninterp spec fn alphabetic(c: char) -> bool;

/// What `char::is_alphanumeric` answers for `c`.
pub uninterp spec fn alphanumeric(c: char) -> bool;

/// An ASCII letter.
pub open spec fn ascii_letter(c: char) -> bool {
    ('a' <= c && c <= 'z') || ('A' <= c && c <= 'Z')
}

/// An ASCII digit.
pub open spec fn ascii_digit(c: char) -> bool {
    '0' <= c && c <= '9'
}

/// `char::is_alphabetic`: whether `c` has the Unicode `Alphabetic`
/// property, which among ASCII characters holds of the letters exactly.
/// Claimed here: the ASCII answer; the rest only as the named
/// [`alphabetic`].
#[verifier::external_body]
fn char_is_alphabetic(c: char) -> (r: bool)
    ensures
        r == alphabetic(c),
        (c as u32) < 0x80 ==> (r == ascii_letter(c)),
{
    c.is_alphabetic()
}

/// `char::is_alphanumeric`: per its documentation, whether `c` is
/// alphabetic or numeric, which among ASCII characters holds of the letters
/// and digits exactly. Claimed here: the ASCII answer, and the named
/// [`alphanumeric`], which holds of every alphabetic character.
#[verifier::external_body]
fn char_is_alphanumeric(c: char) -> (r: bool)
    ensures
        r == alphanumeric(c),
        alphabetic(c) ==> r,
        (c as u32) < 0x80 ==> (r == (ascii_letter(c) || ascii_digit(c))),
{
    c.is_alphanumeric()
}

/// A character that may start a chain segment.
pub open spec fn segment_head(c: char) -> bool {
    alphabetic(c) || c == '_' || c == '$'
}

/// A character that may continue a chain segment.
pub open spec fn segment_tail(c: char) -> bool {
    alphanumeric(c) || c == '_' || c == '$'
}

/// Whether the character at `i` fits where it stands in a dotted chain: a
/// dot closes a nonempty segment; a segment's first character is a head,
/// every later one a tail.
pub open spec fn chain_char_fits(t: Seq<char>, i: int) -> bool {
    if t[i] == '.' {
        i > 0 && t[i - 1] != '.'
    } else if i == 0 || t[i - 1] == '.' {
        segment_head(t[i])
    } else {
        segment_tail(t[i])
    }
}

/// The index of the first `.` at or after `i` (the length if none).
pub open spec fn first_dot(t: Seq<char>, i: int) -> int
    decreases t.len() - i,
{
    if i < 0 || i >= t.len() {
        t.len() as int
    } else if t[i] == '.' {
        i
    } else {
        first_dot(t, i + 1)
    }
}

/// The literal keywords and roots that spell like an identifier but are
/// not one: `true`, `false`, `null`, `this` and `import`.
pub open spec fn literal_word(p: Seq<char>) -> bool {
    ||| p == seq!['t', 'r', 'u', 'e']
    ||| p == seq!['f', 'a', 'l', 's', 'e']
    ||| p == seq!['n', 'u', 'l', 'l']
    ||| p == seq!['t', 'h', 'i', 's']
    ||| p == seq!['i', 'm', 'p', 'o', 'r', 't']
}

/// Whether `t` spells a plain dotted identifier chain — the only shape a
/// decorator head accepts bare: nonempty segments of identifier spelling
/// separated by dots, the first segment not a literal keyword (later
/// segments are property names, where keywords are fine).
pub open spec fn dotted_identifier_chain(t: Seq<char>) -> bool {
    &&& t.len() > 0
    &&& t.last() != '.'
    &&& forall|i: int| 0 <= i < t.len() ==> #[trigger] chain_char_fits(t, i)
    &&& !literal_word(t.take(first_dot(t, 0)))
}

proof fn lemma_first_dot(t: Seq<char>, i: int)
    requires
        0 <= i <= t.len(),
    ensures
        i <= first_dot(t, i) <= t.len(),
        forall|k: int| i <= k < first_dot(t, i) ==> t[k] != '.',
        first_dot(t, i) < t.len() ==> t[first_dot(t, i)] == '.',
    decreases t.len() - i,
{
    if i < t.len() && t[i] != '.' {
        lemma_first_dot(t, i + 1);
    }
}

/// Whether `text` spells a plain dotted identifier chain (see
/// [`dotted_identifier_chain`]).
pub fn is_dotted_identifier_chain(text: &str) -> (r: bool)
    ensures
        r == dotted_identifier_chain(text@),
{
    let (chars, _) = crate::chars::chars_with_offsets(text);
    let n = chars.len();
    if n == 0 {
        return false;
    }
    let mut i: usize = 0;
    let mut dot: usize = n;
    while i < n
        invariant
            n == chars@.len(),
            chars@ == text@,
            i <= n,
            dot <= n,
            forall|k: int| 0 <= k < i ==> #[trigger] chain_char_fits(chars@, k),
            dot == n ==> forall|k: int| 0 <= k < i ==> chars@[k] != '.',
            dot < n ==> dot < i && chars@[dot as int] == '.' && forall|k: int|
                0 <= k < dot ==> chars@[k] != '.',
        decreases n - i,
    {
        let c = chars[i];
        let fits = if c == '.' {
            i > 0 && chars[i - 1] != '.'
        } else if i == 0 || chars[i - 1] == '.' {
            char_is_alphabetic(c) || c == '_' || c == '$'
        } else {
            char_is_alphanumeric(c) || c == '_' || c == '$'
        };
        if !fits {
            proof {
                assert(!chain_char_fits(chars@, i as int));
            }
            return false;
        }
        if c == '.' && dot == n {
            dot = i;
        }
        i += 1;
    }
    if chars[n - 1] == '.' {
        return false;
    }
    proof {
        lemma_first_dot(chars@, 0);
        let d = first_dot(chars@, 0);
        if dot < n {
            if d < dot {
                assert(chars@[d] == '.');
            }
            if dot < d {
                assert(chars@[dot as int] != '.');
            }
            assert(d == dot);
        } else {
            if d < n {
                assert(chars@[d] == '.');
            }
            assert(d == n);
        }
    }
    let first = vstd::slice::slice_subrange(chars.as_slice(), 0, dot);
    proof {
        assert(first@ =~= chars@.take(dot as int));
    }
    let keyword = crate::chars::seq_eq(first, &['t', 'r', 'u', 'e'])
        || crate::chars::seq_eq(first, &['f', 'a', 'l', 's', 'e'])
        || crate::chars::seq_eq(first, &['n', 'u', 'l', 'l'])
        || crate::chars::seq_eq(first, &['t', 'h', 'i', 's'])
        || crate::chars::seq_eq(first, &['i', 'm', 'p', 'o', 'r', 't']);
    proof {
        assert(['t', 'r', 'u', 'e']@ =~= seq!['t', 'r', 'u', 'e']);
        assert(['f', 'a', 'l', 's', 'e']@ =~= seq!['f', 'a', 'l', 's', 'e']);
        assert(['n', 'u', 'l', 'l']@ =~= seq!['n', 'u', 'l', 'l']);
        assert(['t', 'h', 'i', 's']@ =~= seq!['t', 'h', 'i', 's']);
        assert(['i', 'm', 'p', 'o', 'r', 't']@ =~= seq!['i', 'm', 'p', 'o', 'r', 't']);
    }
    !keyword
}

/// Whether every node's span lies inside the source on character
/// boundaries, within its parent's span.
pub open spec fn spans_nested(spans: Seq<(u32, u32)>, parent: Seq<u32>, src: Seq<char>) -> bool {
    let bytes = vstd::utf8::encode_utf8(src);
    &&& forall|i: int|
        0 <= i < spans.len() ==> {
            &&& (#[trigger] spans[i]).0 <= spans[i].1 <= bytes.len()
            &&& vstd::utf8::is_char_boundary(bytes, spans[i].0 as int)
            &&& vstd::utf8::is_char_boundary(bytes, spans[i].1 as int)
        }
    &&& forall|i: int|
        0 < i < spans.len() && parent[i] < i ==> spans[parent[i] as int].0 <= (#[trigger] spans[i]).0
            && spans[i].1 <= spans[parent[i] as int].1
}

/// Whether the span of `outer` covers the span of `inner`.
pub open spec fn covers(spans: Seq<(u32, u32)>, outer: int, inner: int) -> bool {
    spans[outer].0 <= spans[inner].0 && spans[inner].1 <= spans[outer].1
}

proof fn lemma_up_covers(w: &Walker, idx: int, top: int, only: bool)
    requires
        w.tree_ok(),
        spans_nested(w.spans@, w.parent@, w.src@),
        0 <= top <= idx < w.nodes@.len(),
        covers(w.spans@, top, idx),
    ensures
        covers(w.spans@, up_from(w.nodes@, w.parent@, idx, top, only).0, idx),
    decreases top,
{
    if w.parent@[top] != u32::MAX && w.parent@[top] < top {
        let p = w.parent@[top] as int;
        assert(covers(w.spans@, p, top));
        lemma_up_covers(w, idx, p, only);
        lemma_up_covers(w, idx, p, false);
    }
}

proof fn lemma_head_covers(w: &Walker, node: int, calls: int)
    requires
        w.tree_ok(),
        spans_nested(w.spans@, w.parent@, w.src@),
        0 <= node < w.nodes@.len(),
        head_from(w.nodes@, w.spans@, w.parent@, node, calls) is Some,
    ensures
        0 <= head_from(w.nodes@, w.spans@, w.parent@, node, calls)->0 < w.nodes@.len(),
        covers(w.spans@, head_from(w.nodes@, w.spans@, w.parent@, node, calls)->0, node),
    decreases node,
{
    let p = w.parent@[node] as int;
    if node > 0 {
        assert(covers(w.spans@, p, node));
        if head_from(w.nodes@, w.spans@, w.parent@, p, calls) is Some {
            lemma_head_covers(w, p, calls);
        }
        if head_from(w.nodes@, w.spans@, w.parent@, p, calls + 1) is Some {
            lemma_head_covers(w, p, calls + 1);
        }
    }
}

/// The whole-head rebuild of a decorator head around a splice: the head's
/// text with `text` in place of `[span.0, span.1)`, in parentheses.
pub open spec fn head_rebuilt(src: Seq<char>, head: (u32, u32), span: (u32, u32), text: Seq<char>) -> Seq<
    char,
> {
    seq!['('] + crate::defines::span_text(src, head.0 as int, span.0 as int) + text
        + crate::defines::span_text(src, span.1 as int, head.1 as int) + seq![')']
}

impl Walker {
    /// A decorator head only parses as a dotted identifier chain,
    /// optionally called: a bare chain splice with only static members
    /// above keeps its own span; any other splice shape wraps the whole
    /// head in parentheses, rebuilt around the splice. `None` when the
    /// reference is not in a decorator head.
    pub fn decorator_head_splice(&self, idx: u32, span: (u32, u32), text: &str) -> (r: Option<
        ((u32, u32), String),
    >)
        requires
            self.tree_ok(),
            spans_nested(self.spans@, self.parent@, self.src@),
            0 < idx < self.nodes@.len(),
            self.spans@[idx as int].0 <= span.0 <= span.1 <= self.spans@[idx as int].1,
            vstd::utf8::is_char_boundary(vstd::utf8::encode_utf8(self.src@), span.0 as int),
            vstd::utf8::is_char_boundary(vstd::utf8::encode_utf8(self.src@), span.1 as int),
        ensures
            ({
                let top = context_top(self.nodes@, self.parent@, idx as int);
                match head_from(self.nodes@, self.spans@, self.parent@, top, 0) {
                    None => r is None,
                    Some(head) => if dotted_identifier_chain(text@) && static_up_to(
                        self.nodes@,
                        self.parent@,
                        top,
                        head,
                    ) {
                        r matches Some((s, t)) && s == span && t@ == text@
                    } else {
                        r matches Some((s, t)) && s == self.spans@[head] && t@ == head_rebuilt(
                            self.src@,
                            self.spans@[head],
                            span,
                            text@,
                        )
                    },
                }
            }),
    {
        let head = match self.decorator_head(idx) {
            Some(h) => h,
            None => return None,
        };
        let ghost top = context_top(self.nodes@, self.parent@, idx as int);
        proof {
            lemma_top_not_program(self, idx as int);
            lemma_up_from(self.nodes@, self.parent@, idx as int, idx as int, true);
            lemma_up_covers(self, idx as int, idx as int, true);
            lemma_head_covers(self, top, 0);
        }
        let head_span = self.spans[head as usize];
        if is_dotted_identifier_chain(text) && self.chain_above_is_static(idx, head) {
            return Some((span, text.to_owned()));
        }
        let before = crate::defines::slice_text(self.src.as_str(), head_span.0, span.0);
        let after = crate::defines::slice_text(self.src.as_str(), span.1, head_span.1);
        proof {
            reveal_strlit("(");
            reveal_strlit(")");
        }
        let inner = "(".to_owned().concat(before.as_str()).concat(text).concat(after.as_str()).concat(
            ")",
        );
        Some((head_span, inner))
    }
}

/// Whether `top` is the callee of the call, or the tag of the tagged
/// template, at `parent`.
pub open spec fn call_or_tag_callee(
    nodes: Seq<NodeKind>,
    spans: Seq<(u32, u32)>,
    top: int,
    parent: int,
) -> bool {
    ||| nodes[parent] matches NodeKind::CallExpression { callee_start } && callee_start
        == spans[top].0
    ||| nodes[parent] matches NodeKind::TaggedTemplateExpression { tag_start } && tag_start
        == spans[top].0
}

/// The receiver-detaching splice: a dotted value spliced as the callee of
/// a call or tag becomes `(0, text)`, over the surrounding parens when every
/// wrapper is a plain paren; any other splice covers the reference's span
/// unchanged.
pub open spec fn detached_splice(
    nodes: Seq<NodeKind>,
    spans: Seq<(u32, u32)>,
    parent: Seq<u32>,
    idx: int,
    span: (u32, u32),
    dotted: bool,
    text: Seq<char>,
) -> (Seq<char>, (u32, u32)) {
    let (top, only_parens) = unwrapped_up(nodes, parent, idx);
    if parent[top] == u32::MAX || !call_or_tag_callee(nodes, spans, top, parent[top] as int)
        || !dotted {
        (text, span)
    } else {
        (
            seq!['(', '0', ',', ' '] + text + seq![')'],
            if only_parens && top != idx {
                spans[top]
            } else {
                span
            },
        )
    }
}

/// The JSX member links above `node`, innermost first — each member node
/// with its property name — and the outermost wrapper, when `node` roots a
/// JSX member tag.
pub open spec fn member_links_from(nodes: Seq<NodeKind>, parent: Seq<u32>, node: int) -> Option<
    (Seq<(u32, Seq<char>)>, int),
>
    decreases node,
{
    if !(0 <= node < parent.len()) || parent[node] == u32::MAX || parent[node] >= node {
        None
    } else {
        let p = parent[node] as int;
        match nodes[p] {
            NodeKind::JSXMemberExpression { property } => match member_links_from(nodes, parent, p) {
                Some((links, outermost)) => Some((seq![(p as u32, property@)] + links, outermost)),
                None => None,
            },
            NodeKind::JSXOpeningElement => Some((Seq::empty(), node)),
            NodeKind::JSXClosingElement => Some((Seq::empty(), node)),
            _ => None,
        }
    }
}

impl Walker {
    /// Whether `top` (an unwrapped node) is the callee or tag at `parent`.
    pub fn is_call_or_tag_callee(&self, top: u32, parent: u32) -> (r: bool)
        requires
            self.tree_ok(),
            top < self.nodes@.len(),
            parent < self.nodes@.len(),
        ensures
            r == call_or_tag_callee(self.nodes@, self.spans@, top as int, parent as int),
    {
        let start = self.spans[top as usize].0;
        match &self.nodes[parent as usize] {
            NodeKind::CallExpression { callee_start } => *callee_start == start,
            NodeKind::TaggedTemplateExpression { tag_start } => *tag_start == start,
            _ => false,
        }
    }

    /// The receiver-detaching splice for an identifier-position reference
    /// (`flag()` → `(0, obj.method)()`), claiming the parentheses around the
    /// reference when the whole wrapper chain is parens (see
    /// [`detached_splice`]).
    pub fn detached(&self, idx: u32, span: (u32, u32), dotted: bool, text: String) -> (r: (
        String,
        (u32, u32),
    ))
        requires
            self.tree_ok(),
            idx < self.nodes@.len(),
        ensures
            (r.0@, r.1) == detached_splice(
                self.nodes@,
                self.spans@,
                self.parent@,
                idx as int,
                span,
                dotted,
                text@,
            ),
    {
        let (top, only_parens) = self.unwrap_up(idx);
        proof {
            lemma_top_not_program(self, idx as int);
        }
        let parent = self.parent[top as usize];
        if parent == u32::MAX || !self.is_call_or_tag_callee(top, parent) {
            return (text, span);
        }
        if !dotted {
            return (text, span);
        }
        let claimable = only_parens && top != idx;
        proof {
            reveal_strlit("(0, ");
            reveal_strlit(")");
        }
        let spliced = "(0, ".to_owned().concat(text.as_str()).concat(")");
        (spliced, if claimable {
            self.spans[top as usize]
        } else {
            span
        })
    }

    /// Whether the source byte right after `span` is a `.`.
    pub fn followed_by_dot(&self, span: (u32, u32)) -> (r: bool)
        ensures
            r == (span.1 < vstd::utf8::encode_utf8(self.src@).len() && vstd::utf8::encode_utf8(
                self.src@,
            )[span.1 as int] == 0x2E),
    {
        let bytes = self.src.as_str().as_bytes();
        (span.1 as usize) < bytes.len() && bytes[span.1 as usize] == 0x2E
    }

    /// Whether the source byte right before `span` is a `-`.
    pub fn preceded_by_minus(&self, span: (u32, u32)) -> (r: bool)
        ensures
            r == (span.0 > 0 && span.0 - 1 < vstd::utf8::encode_utf8(self.src@).len()
                && vstd::utf8::encode_utf8(self.src@)[span.0 - 1] == 0x2D),
    {
        let bytes = self.src.as_str().as_bytes();
        span.0 > 0 && ((span.0 - 1) as usize) < bytes.len() && bytes[(span.0 - 1) as usize] == 0x2D
    }

    /// The (member node, property) pairs from a JSX member tag's root
    /// outward plus the outermost wrapper, when the reference roots one;
    /// `None` without a climb when the file has no JSX.
    pub fn collect_jsx_member_links(&self, idx: u32) -> (r: Option<(Vec<(u32, String)>, u32)>)
        requires
            self.tree_ok(),
            0 < idx < self.nodes@.len(),
        ensures
            !self.has_jsx ==> r is None,
            self.has_jsx ==> match member_links_from(self.nodes@, self.parent@, idx as int) {
                None => r is None,
                Some((links, outermost)) => r matches Some((v, o)) && o == outermost && v@.len()
                    == links.len() && forall|k: int|
                    0 <= k < links.len() ==> (#[trigger] v@[k]).0 == links[k].0 && v@[k].1@
                        == links[k].1,
            },
    {
        if !self.has_jsx {
            return None;
        }
        let mut links: Vec<(u32, String)> = Vec::new();
        let mut node = idx;
        loop
            invariant
                self.tree_ok(),
                self.has_jsx,
                0 < node < self.nodes@.len(),
                match member_links_from(self.nodes@, self.parent@, idx as int) {
                    None => member_links_from(self.nodes@, self.parent@, node as int) is None,
                    Some((all, outermost)) => match member_links_from(
                        self.nodes@,
                        self.parent@,
                        node as int,
                    ) {
                        Some((rest, o)) => o == outermost && all.len() == links@.len() + rest.len()
                            && (forall|k: int|
                            0 <= k < links@.len() ==> (#[trigger] links@[k]).0 == all[k].0
                                && links@[k].1@ == all[k].1) && (forall|k: int|
                            0 <= k < rest.len() ==> #[trigger] rest[k] == all[links@.len() + k]),
                        None => false,
                    },
                },
            decreases node,
        {
            let parent = self.parent[node as usize];
            proof {
                lemma_climb_nodes(self, node as int);
            }
            match &self.nodes[parent as usize] {
                NodeKind::JSXMemberExpression { property } => {
                    proof {
                        assert(parent > 0) by {
                            if parent == 0 {
                                assert(self.nodes@[0] is Program);
                            }
                        }
                    }
                    let ghost before = links@;
                    let name = property.clone();
                    links.push((parent, name));
                    proof {
                        let rest = member_links_from(self.nodes@, self.parent@, node as int);
                        let next = member_links_from(self.nodes@, self.parent@, parent as int);
                        match member_links_from(self.nodes@, self.parent@, idx as int) {
                            None => {
                                assert(rest is None);
                                assert(next is None);
                            },
                            Some((all, outermost)) => {
                                assert(rest is Some);
                                assert(next is Some);
                                let (r1, o1) = rest->0;
                                let (r2, o2) = next->0;
                                assert(r1 == seq![(parent, property@)] + r2);
                                assert(o1 == o2);
                                assert(links@.len() == before.len() + 1);
                                assert(links@[before.len() as int].0 == parent);
                                assert(links@[before.len() as int].1@ == property@);
                                assert(all[before.len() as int] == r1[0]);
                                assert forall|k: int|
                                    0 <= k < links@.len() implies (#[trigger] links@[k]).0 == all[k].0
                                        && links@[k].1@ == all[k].1 by {
                                    if k < before.len() {
                                        assert(links@[k] == before[k]);
                                    }
                                }
                                assert forall|k: int| 0 <= k < r2.len() implies #[trigger] r2[k]
                                    == all[links@.len() + k] by {
                                    assert(r2[k] == r1[k + 1]);
                                    assert(r1[k + 1] == all[before.len() + k + 1]);
                                }
                            },
                        }
                    }
                    node = parent;
                },
                NodeKind::JSXOpeningElement | NodeKind::JSXClosingElement => {
                    return Some((links, node));
                },
                _ => return None,
            }
        }
    }
}

/// Only the left side of an assignment or a loop head is written: when a
/// reference's context sits under an assignment, a `for-in` or a `for-of`
/// anywhere but at its left side (the assigned value, the iterated object),
/// it is read, not a write target; at the left side it is written.
pub proof fn lemma_only_left_sides_are_written(
    nodes: Seq<NodeKind>,
    spans: Seq<(u32, u32)>,
    parent: Seq<u32>,
    idx: int,
)
    requires
        parent[context_top(nodes, parent, idx)] != u32::MAX,
    ensures
        ({
            let top = context_top(nodes, parent, idx);
            let start = spans[top].0;
            match nodes[parent[top] as int] {
                NodeKind::AssignmentExpression { left_start } => write_target(nodes, spans, parent, idx)
                    <==> left_start == start,
                NodeKind::ForInStatement { left_start } => write_target(nodes, spans, parent, idx)
                    <==> left_start == start,
                NodeKind::ForOfStatement { left_start, .. } => write_target(nodes, spans, parent, idx)
                    <==> left_start == start,
                _ => true,
            }
        }),
{
}

} // verus!
