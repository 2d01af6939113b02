//! The scope each flattened node sits in: the index of the innermost
//! scope-introducing node at or above it (0 is the program). A node's own
//! index is its scope identity.

use vstd::prelude::*;

use crate::flattener::NodeKind;
use crate::tree::links_ok;

verus! {

/// Statement-list containers; each gets its own scope, which enum merge
/// groups key their member tables on.
pub open spec fn scope_container(kind: NodeKind) -> bool {
    ||| kind is Program
    ||| kind is BlockStatement
    ||| kind is FunctionBody
    ||| kind is TSModuleBlock
    ||| kind is StaticBlock
}

/// Nodes introducing a lexical scope beyond the statement-list containers:
/// function parameter environments, loop heads, class name scopes, catch
/// clauses and enum declarations.
pub open spec fn lexical_scope(kind: NodeKind) -> bool {
    ||| kind is FormalParameters
    ||| kind is ForStatement
    ||| kind is ForInStatement
    ||| kind is ForOfStatement
    ||| kind is Class
    ||| kind is CatchClause
    ||| kind is TSEnumDeclaration
}

/// Whether `kind` is a statement-list container (see [`scope_container`]).
pub fn is_enum_scope_container(kind: &NodeKind) -> (r: bool)
    ensures
        r == scope_container(*kind),
{
    match kind {
        NodeKind::Program | NodeKind::BlockStatement | NodeKind::FunctionBody
        | NodeKind::TSModuleBlock | NodeKind::StaticBlock => true,
        _ => false,
    }
}

/// Whether `kind` introduces a lexical scope (see [`lexical_scope`]).
pub fn introduces_lexical_scope(kind: &NodeKind) -> (r: bool)
    ensures
        r == lexical_scope(*kind),
{
    match kind {
        NodeKind::FormalParameters | NodeKind::ForStatement | NodeKind::ForInStatement { .. }
        | NodeKind::ForOfStatement { .. } | NodeKind::Class { .. } | NodeKind::CatchClause
        | NodeKind::TSEnumDeclaration => true,
        _ => false,
    }
}

/// The first parameter list on the sibling chain from `start`, if any.
pub open spec fn params_on_chain(nodes: Seq<NodeKind>, ns: Seq<u32>, start: int) -> Option<int>
    decreases ns.len() - start,
{
    if start < 0 || start >= ns.len() || start >= nodes.len() {
        None
    } else if nodes[start] is FormalParameters {
        Some(start)
    } else if start < ns[start] < ns.len() {
        params_on_chain(nodes, ns, ns[start] as int)
    } else {
        None
    }
}

/// Entry `j` of a scope array of which only `done` has been filled in
/// (later entries still read as 0).
pub open spec fn read_scope(done: Seq<u32>, j: int) -> u32 {
    if 0 <= j < done.len() {
        done[j]
    } else {
        0
    }
}

/// The scope node `idx` gets, reading only the entries of the nodes before
/// it: its own index when it introduces a scope; its switch for a case
/// clause (the discriminant stays in the enclosing scope); for any other
/// direct child of a function, the function's parameter environment (or the
/// function's own scope when it has no parameter list); and otherwise its
/// parent's scope.
pub open spec fn scope_rule(
    nodes: Seq<NodeKind>,
    parent: Seq<u32>,
    fc: Seq<u32>,
    ns: Seq<u32>,
    done: Seq<u32>,
    idx: int,
) -> u32 {
    let kind = nodes[idx];
    let up = parent[idx] as int;
    if scope_container(kind) || lexical_scope(kind) {
        idx as u32
    } else if kind is SwitchCase {
        parent[idx]
    } else if nodes[up] is Function || nodes[up] is ArrowFunctionExpression {
        match params_on_chain(nodes, ns, fc[up] as int) {
            Some(child) => read_scope(done, child),
            None => read_scope(done, up),
        }
    } else {
        read_scope(done, up)
    }
}

/// What a scope pass over the flattened arrays needs: equal lengths, exact
/// child links, and a parent below `n` for every node but the program.
pub open spec fn scope_inputs_ok(
    nodes: Seq<NodeKind>,
    parent: Seq<u32>,
    fc: Seq<u32>,
    ns: Seq<u32>,
) -> bool {
    &&& nodes.len() == parent.len()
    &&& nodes.len() == fc.len()
    &&& links_ok(fc, ns)
    &&& forall|i: int| 1 <= i < nodes.len() ==> #[trigger] parent[i] < nodes.len()
}

/// The scope of node `idx`, from the entries already written for the nodes
/// before it (the shared rule of every scope derivation).
pub fn scope_within(
    nodes: &[NodeKind],
    parent: &[u32],
    first_child: &[u32],
    next_sibling: &[u32],
    node_scope: &[u32],
    idx: u32,
) -> (r: u32)
    requires
        scope_inputs_ok(nodes@, parent@, first_child@, next_sibling@),
        node_scope@.len() == nodes@.len(),
        1 <= idx < nodes@.len(),
        forall|j: int| idx <= j < node_scope@.len() ==> #[trigger] node_scope@[j] == 0,
    ensures
        r == scope_rule(
            nodes@,
            parent@,
            first_child@,
            next_sibling@,
            node_scope@.take(idx as int),
            idx as int,
        ),
{
    let ghost done = node_scope@.take(idx as int);
    let kind = &nodes[idx as usize];
    if is_enum_scope_container(kind) || introduces_lexical_scope(kind) {
        idx
    } else if let NodeKind::SwitchCase = kind {
        parent[idx as usize]
    } else if match nodes[parent[idx as usize] as usize] {
        NodeKind::Function { .. } | NodeKind::ArrowFunctionExpression => true,
        _ => false,
    } {
        let function = parent[idx as usize];
        let mut child = first_child[function as usize];
        let mut scope = node_scope[function as usize];
        let n = nodes.len();
        proof {
            assert(scope == read_scope(done, function as int));
        }
        while child != u32::MAX
            invariant
                scope_inputs_ok(nodes@, parent@, first_child@, next_sibling@),
                node_scope@.len() == nodes@.len(),
                n == nodes@.len(),
                1 <= idx < n,
                function < n,
                function == parent@[idx as int],
                !(scope_container(nodes@[idx as int]) || lexical_scope(nodes@[idx as int])),
                !(nodes@[idx as int] is SwitchCase),
                nodes@[function as int] is Function || nodes@[function as int] is ArrowFunctionExpression,
                child == u32::MAX || child < n,
                done == node_scope@.take(idx as int),
                forall|j: int| idx <= j < node_scope@.len() ==> #[trigger] node_scope@[j] == 0,
                params_on_chain(nodes@, next_sibling@, first_child@[function as int] as int)
                    == params_on_chain(nodes@, next_sibling@, child as int),
                scope == read_scope(done, function as int),
            decreases if child == u32::MAX { 0 } else { n - child + 1 },
        {
            if let NodeKind::FormalParameters = nodes[child as usize] {
                scope = node_scope[child as usize];
                proof {
                    assert(scope == read_scope(done, child as int));
                }
                return scope;
            }
            child = next_sibling[child as usize];
        }
        scope
    } else {
        let up = parent[idx as usize] as usize;
        proof {
            assert(node_scope@[up as int] == read_scope(done, up as int));
        }
        node_scope[up]
    }
}

/// Every node's scope: the program's is 0, and each later node's follows
/// [`scope_rule`] from the scopes of the nodes before it.
pub fn derive_node_scopes(
    nodes: &[NodeKind],
    parent: &[u32],
    first_child: &[u32],
    next_sibling: &[u32],
) -> (node_scope: Vec<u32>)
    requires
        scope_inputs_ok(nodes@, parent@, first_child@, next_sibling@),
    ensures
        scopes_derived(nodes@, parent@, first_child@, next_sibling@, node_scope@),
{
    let n = nodes.len();
    let mut node_scope: Vec<u32> = Vec::new();
    while node_scope.len() < n
        invariant
            node_scope@.len() <= n,
            forall|j: int| 0 <= j < node_scope@.len() ==> #[trigger] node_scope@[j] == 0,
        decreases n - node_scope@.len(),
    {
        node_scope.push(0);
    }
    let mut idx: usize = 1;
    while idx < n
        invariant
            scope_inputs_ok(nodes@, parent@, first_child@, next_sibling@),
            n == nodes@.len(),
            node_scope@.len() == n,
            1 <= idx || n == 0,
            n > 0 ==> idx <= n,
            n > 0 ==> node_scope@[0] == 0,
            forall|j: int| idx <= j < n ==> #[trigger] node_scope@[j] == 0,
            forall|j: int|
                1 <= j < idx && j < n ==> #[trigger] node_scope@[j] == scope_rule(
                    nodes@,
                    parent@,
                    first_child@,
                    next_sibling@,
                    node_scope@.take(j),
                    j,
                ),
        decreases n - idx,
    {
        let scope = scope_within(nodes, parent, first_child, next_sibling, &node_scope, idx as u32);
        let ghost before = node_scope@;
        node_scope.set(idx, scope);
        proof {
            assert forall|j: int| 1 <= j <= idx implies #[trigger] node_scope@[j] == scope_rule(
                nodes@,
                parent@,
                first_child@,
                next_sibling@,
                node_scope@.take(j),
                j,
            ) by {
                assert(node_scope@.take(j) =~= before.take(j));
            }
        }
        idx += 1;
    }
    node_scope
}

/// Whether `node_scope` is what [`derive_node_scopes`] gives for these
/// arrays.
pub open spec fn scopes_derived(
    nodes: Seq<NodeKind>,
    parent: Seq<u32>,
    fc: Seq<u32>,
    ns: Seq<u32>,
    node_scope: Seq<u32>,
) -> bool {
    &&& node_scope.len() == nodes.len()
    &&& nodes.len() > 0 ==> node_scope[0] == 0
    &&& forall|idx: int|
        1 <= idx < nodes.len() ==> #[trigger] node_scope[idx] == scope_rule(
            nodes,
            parent,
            fc,
            ns,
            node_scope.take(idx),
            idx,
        )
}

proof fn lemma_scopes_below(
    nodes: Seq<NodeKind>,
    parent: Seq<u32>,
    fc: Seq<u32>,
    ns: Seq<u32>,
    node_scope: Seq<u32>,
    k: int,
)
    requires
        scope_inputs_ok(nodes, parent, fc, ns),
        forall|i: int| 1 <= i < nodes.len() ==> #[trigger] parent[i] < i,
        scopes_derived(nodes, parent, fc, ns, node_scope),
        0 <= k <= nodes.len(),
    ensures
        forall|j: int| 0 <= j < k ==> #[trigger] node_scope[j] <= j,
    decreases k,
{
    if k > 0 {
        lemma_scopes_below(nodes, parent, fc, ns, node_scope, k - 1);
        let idx = k - 1;
        if idx >= 1 {
            let done = node_scope.take(idx);
            assert forall|j: int| #[trigger] read_scope(done, j) <= idx by {
                if 0 <= j < done.len() {
                    assert(done[j] == node_scope[j]);
                }
            }
            assert(node_scope[idx] == scope_rule(nodes, parent, fc, ns, done, idx));
        }
    }
}

/// When every node's parent comes before it (a preorder tree), every node's
/// scope is the node itself or a node before it: scopes are read only from
/// entries already written.
pub proof fn lemma_scope_at_or_before(
    nodes: Seq<NodeKind>,
    parent: Seq<u32>,
    fc: Seq<u32>,
    ns: Seq<u32>,
    node_scope: Seq<u32>,
)
    requires
        scope_inputs_ok(nodes, parent, fc, ns),
        forall|i: int| 1 <= i < nodes.len() ==> #[trigger] parent[i] < i,
        scopes_derived(nodes, parent, fc, ns, node_scope),
    ensures
        forall|idx: int| 0 <= idx < nodes.len() ==> #[trigger] node_scope[idx] <= idx,
{
    lemma_scopes_below(nodes, parent, fc, ns, node_scope, nodes.len() as int);
}

/// Every node that opens a scope is its own scope: the statement-list
/// containers, a function's parameter list, the heads of `for`, `for-in`
/// and `for-of` loops (whose bindings live in the loop), a class and a
/// catch clause, and an enum declaration (up to the largest index a `u32`
/// scope entry can name). A node below one of them that
/// opens nothing, under a parent that is no function, shares its parent's
/// scope.
pub proof fn lemma_scope_openers_own_their_scope(
    nodes: Seq<NodeKind>,
    parent: Seq<u32>,
    fc: Seq<u32>,
    ns: Seq<u32>,
    node_scope: Seq<u32>,
)
    requires
        scopes_derived(nodes, parent, fc, ns, node_scope),
    ensures
        forall|idx: int|
            1 <= idx < nodes.len() && idx <= u32::MAX && (nodes[idx] is Program || nodes[idx] is BlockStatement
                || nodes[idx] is FunctionBody || nodes[idx] is TSModuleBlock
                || nodes[idx] is StaticBlock || nodes[idx] is FormalParameters
                || nodes[idx] is ForStatement || nodes[idx] is ForInStatement
                || nodes[idx] is ForOfStatement || nodes[idx] is Class || nodes[idx] is CatchClause
                || nodes[idx] is TSEnumDeclaration) ==> #[trigger] node_scope[idx] == idx,
        forall|idx: int|
            1 <= idx < nodes.len() && 0 <= parent[idx] < idx && !scope_container(nodes[idx])
                && !lexical_scope(nodes[idx]) && !(nodes[idx] is SwitchCase)
                && !(nodes[parent[idx] as int] is Function)
                && !(nodes[parent[idx] as int] is ArrowFunctionExpression) ==> #[trigger] node_scope[idx]
                == node_scope[parent[idx] as int],
{
    assert forall|idx: int|
        1 <= idx < nodes.len() && 0 <= parent[idx] < idx && !scope_container(nodes[idx])
            && !lexical_scope(nodes[idx]) && !(nodes[idx] is SwitchCase)
            && !(nodes[parent[idx] as int] is Function)
            && !(nodes[parent[idx] as int] is ArrowFunctionExpression) implies #[trigger] node_scope[idx]
            == node_scope[parent[idx] as int] by {
        assert(node_scope[idx] == scope_rule(nodes, parent, fc, ns, node_scope.take(idx), idx));
        assert(node_scope.take(idx)[parent[idx] as int] == node_scope[parent[idx] as int]);
    }
    assert forall|idx: int|
        1 <= idx < nodes.len() && idx <= u32::MAX && (nodes[idx] is Program || nodes[idx] is BlockStatement
            || nodes[idx] is FunctionBody || nodes[idx] is TSModuleBlock || nodes[idx] is StaticBlock
            || nodes[idx] is FormalParameters || nodes[idx] is ForStatement
            || nodes[idx] is ForInStatement || nodes[idx] is ForOfStatement || nodes[idx] is Class
            || nodes[idx] is CatchClause || nodes[idx] is TSEnumDeclaration) implies #[trigger] node_scope[idx]
            == idx by {
        assert(scope_container(nodes[idx]) || lexical_scope(nodes[idx]));
        assert(node_scope[idx] == scope_rule(nodes, parent, fc, ns, node_scope.take(idx), idx));
    }
}

} // verus!
