//! The flattening pass's bookkeeping: each AST node the preorder walk enters
//! gets the next flat index and is linked into a first-child/next-sibling
//! tree; enum declarations are recorded; and, when defines are active, each
//! node's parent plus the define gates (`with`/JSX presence, bound relevant
//! names, member-name collisions) are collected at push time.
//!
//! The walk itself belongs to the parser's visitor; this module holds what
//! one entered or left node does to the state.

use vstd::prelude::*;

use crate::tree::{in_chain, last_parent, links_ok};

verus! {

/// The name of an enum member, as the parser spells its variants.
pub enum EnumMemberName {
    Identifier(String),
    StringLiteral(String),
    ComputedString(String),
    ComputedTemplateString,
}

/// What the passes read of an AST node besides its span: its kind, and the
/// parts of it that the scope model, the define gates and the define guards
/// look at (names, operators, and where a child expression starts). Every
/// other kind is `Other`.
pub enum NodeKind {
    Program,
    BlockStatement,
    FunctionBody,
    TSModuleBlock,
    StaticBlock,
    FormalParameters,
    ForStatement,
    ForInStatement { left_start: u32 },
    ForOfStatement { left_start: u32, is_await: bool },
    Class { heritage_start: Option<u32> },
    CatchClause,
    TSEnumDeclaration,
    SwitchCase,
    Function { declaration: bool },
    ArrowFunctionExpression,
    WithStatement { body_start: u32, body_end: u32 },
    JSXElement,
    JSXFragment,
    JSXMemberExpression { property: String },
    JSXOpeningElement,
    JSXClosingElement,
    BindingIdentifier(String),
    TSEnumMember(EnumMemberName),
    ExpressionStatement { expression_start: u32, expression_end: u32 },
    ParenthesizedExpression,
    TSAsExpression,
    TSSatisfiesExpression,
    TSNonNullExpression,
    TSInstantiationExpression,
    ChainExpression,
    StaticMemberExpression { object_start: u32 },
    ComputedMemberExpression { object_start: u32 },
    PrivateFieldExpression { object_start: u32 },
    CallExpression { callee_start: u32 },
    TaggedTemplateExpression { tag_start: u32 },
    NewExpression { callee_start: u32 },
    BinaryExpression { exponential: bool, left_start: u32 },
    UnaryExpression { delete: bool, argument_start: u32 },
    AssignmentExpression { left_start: u32 },
    UpdateExpression,
    AssignmentTargetPropertyIdentifier { binding_start: u32 },
    AssignmentTargetPropertyProperty { binding_start: u32 },
    AssignmentTargetWithDefault { binding_start: u32 },
    ArrayAssignmentTarget,
    ObjectAssignmentTarget,
    AssignmentTargetRest,
    Decorator,
    VariableDeclaration { var: bool, await_using: bool },
    AwaitExpression,
    AccessorProperty { key_start: u32, key_end: u32 },
    PropertyDefinition { key_start: u32, key_end: u32 },
    Other,
}

/// The UTF-8 bytes of a name.
pub open spec fn name_bytes(name: Seq<char>) -> Seq<u8> {
    vstd::utf8::encode_utf8(name)
}

/// Whether bit `byte` is set in a 256-bit first-byte bitmap.
pub open spec fn bit_set(firsts: Seq<u64>, byte: u8) -> bool {
    firsts[((byte as usize) >> 6usize) as int] & (1u64 << (byte & 63u8)) != 0
}

/// Whether some root's first byte is `byte`.
pub open spec fn some_root_starts(roots: Seq<Seq<char>>, byte: u8) -> bool {
    exists|k: int|
        0 <= k < roots.len() && name_bytes(#[trigger] roots[k]).len() > 0 && name_bytes(
            roots[k],
        )[0] == byte
}

/// The views of a list of strings.
pub open spec fn string_views(list: Seq<String>) -> Seq<Seq<char>> {
    list.map_values(|s: String| s@)
}

proof fn lemma_bit_index(byte: u8)
    by (bit_vector)
    ensures
        ((byte as usize) >> 6usize) < 4usize,
        (byte & 63u8) < 64u8,
{
}

/// Setting bit `a` changes bit `b` only where `a == b`.
proof fn lemma_set_bit(x: u64, a: u8, b: u8)
    by (bit_vector)
    requires
        ((a as usize) >> 6usize) == ((b as usize) >> 6usize),
    ensures
        ((x | (1u64 << (a & 63u8))) & (1u64 << (b & 63u8)) != 0) == ((x & (1u64 << (b & 63u8))
            != 0) || a == b),
{
}

/// The first-byte bitmap of `roots`: bit `b` is set exactly when some root
/// starts with byte `b`.
pub fn first_byte_bitmap(roots: &Vec<String>) -> (firsts: [u64; 4])
    ensures
        forall|byte: u8| #[trigger]
            bit_set(firsts@, byte) == some_root_starts(string_views(roots@), byte),
{
    let mut firsts: [u64; 4] = [0u64; 4];
    proof {
        assert forall|byte: u8| !#[trigger] bit_set(firsts@, byte) by {
            lemma_bit_index(byte);
            let j = ((byte as usize) >> 6usize) as int;
            assert(firsts@[j] == 0u64);
            assert(0u64 & (1u64 << (byte & 63u8)) == 0u64) by (bit_vector);
        }
    }
    let mut i: usize = 0;
    while i < roots.len()
        invariant
            i <= roots@.len(),
            forall|byte: u8| #[trigger]
                bit_set(firsts@, byte) == some_root_starts(
                    string_views(roots@.take(i as int)),
                    byte,
                ),
        decreases roots@.len() - i,
    {
        let bytes = roots[i].as_str().as_bytes();
        let ghost before = firsts@;
        let ghost prefix = string_views(roots@.take(i as int));
        let ghost next = string_views(roots@.take(i + 1));
        proof {
            assert(next =~= prefix.push(roots@[i as int]@));
        }
        if bytes.len() > 0 {
            let byte = bytes[0];
            proof {
                lemma_bit_index(byte);
            }
            let j = (byte as usize) >> 6;
            firsts[j] = firsts[j] | (1u64 << (byte & 63));
            proof {
                assert(name_bytes(next[i as int]) == bytes@);
                assert forall|b: u8| #[trigger]
                    bit_set(firsts@, b) == some_root_starts(next, b) by {
                    lemma_bit_index(b);
                    let jb = ((b as usize) >> 6usize) as int;
                    if jb == j as int {
                        lemma_set_bit(before[j as int], byte, b);
                    } else {
                        assert(firsts@[jb] == before[jb]);
                        assert(b != byte) by {
                            if b == byte {
                                assert(jb == j as int);
                            }
                        }
                    }
                    assert(bit_set(firsts@, b) == (bit_set(before, b) || b == byte));
                    if some_root_starts(next, b) && !some_root_starts(prefix, b) {
                        let k = choose|k: int|
                            0 <= k < next.len() && name_bytes(#[trigger] next[k]).len() > 0
                                && name_bytes(next[k])[0] == b;
                        if k < i as int {
                            assert(next[k] == prefix[k]);
                        }
                        assert(k == i as int);
                    }
                    if some_root_starts(prefix, b) {
                        let k = choose|k: int|
                            0 <= k < prefix.len() && name_bytes(#[trigger] prefix[k]).len() > 0
                                && name_bytes(prefix[k])[0] == b;
                        assert(next[k] == prefix[k]);
                    }
                    if b == byte {
                        assert(name_bytes(next[i as int]).len() > 0);
                    }
                }
            }
        } else {
            proof {
                assert forall|b: u8| #[trigger]
                    bit_set(firsts@, b) == some_root_starts(next, b) by {
                    if some_root_starts(next, b) && !some_root_starts(prefix, b) {
                        let k = choose|k: int|
                            0 <= k < next.len() && name_bytes(#[trigger] next[k]).len() > 0
                                && name_bytes(next[k])[0] == b;
                        if k < i as int {
                            assert(next[k] == prefix[k]);
                        }
                        assert(name_bytes(next[i as int]) == bytes@);
                    }
                    if some_root_starts(prefix, b) {
                        let k = choose|k: int|
                            0 <= k < prefix.len() && name_bytes(#[trigger] prefix[k]).len() > 0
                                && name_bytes(prefix[k])[0] == b;
                        assert(next[k] == prefix[k]);
                    }
                }
            }
        }
        i += 1;
    }
    proof {
        assert(roots@.take(i as int) =~= roots@);
    }
    firsts
}

/// Whether `name`'s first byte is marked present in `firsts`.
pub fn starts_relevant(name: &str, firsts: &[u64; 4]) -> (r: bool)
    ensures
        r == (name_bytes(name@).len() > 0 && bit_set(firsts@, name_bytes(name@)[0])),
{
    let bytes = name.as_bytes();
    if bytes.len() > 0 {
        let byte = bytes[0];
        proof {
            lemma_bit_index(byte);
        }
        firsts[(byte as usize) >> 6] & (1u64 << (byte & 63)) != 0
    } else {
        false
    }
}

} // verus!

verus! {

/// Whether node `p` has a child.
pub open spec fn has_child(gp: Seq<u32>, p: int) -> bool {
    exists|c: int| 0 <= c < gp.len() && #[trigger] gp[c] == p
}

/// Whether a node after `c` shares `c`'s parent.
pub open spec fn has_later_sibling(gp: Seq<u32>, c: int) -> bool {
    exists|d: int| c < d < gp.len() && #[trigger] gp[d] == gp[c]
}

/// Whether the child links `fc`/`ns` describe the tree whose parents are
/// `gp` (`u32::MAX` for a root): parents come before their children, a
/// node's first child is its smallest child, and a node's next sibling is
/// the smallest later node with the same parent (roots are not chained).
pub open spec fn tree_links(fc: Seq<u32>, ns: Seq<u32>, gp: Seq<u32>) -> bool {
    &&& fc.len() == gp.len()
    &&& ns.len() == gp.len()
    &&& gp.len() < u32::MAX
    &&& forall|c: int| 0 <= c < gp.len() ==> #[trigger] gp[c] == u32::MAX || gp[c] < c
    &&& forall|p: int|
        0 <= p < gp.len() ==> ((#[trigger] fc[p] == u32::MAX) <==> !has_child(gp, p))
    &&& forall|p: int|
        0 <= p < gp.len() && #[trigger] fc[p] != u32::MAX ==> {
            &&& fc[p] < gp.len()
            &&& gp[fc[p] as int] == p
            &&& forall|d: int| 0 <= d < fc[p] ==> #[trigger] gp[d] != p
        }
    &&& forall|c: int|
        0 <= c < gp.len() ==> ((#[trigger] ns[c] == u32::MAX) <==> (gp[c] == u32::MAX
            || !has_later_sibling(gp, c)))
    &&& forall|c: int|
        0 <= c < gp.len() && #[trigger] ns[c] != u32::MAX ==> {
            &&& c < ns[c] < gp.len()
            &&& gp[ns[c] as int] == gp[c]
            &&& forall|d: int| c < d < ns[c] ==> #[trigger] gp[d] != gp[c]
        }
}

/// Whether `lc` holds each node's last child so far (`u32::MAX` if none).
pub open spec fn last_links(lc: Seq<u32>, gp: Seq<u32>) -> bool {
    &&& lc.len() == gp.len()
    &&& forall|p: int|
        0 <= p < gp.len() ==> ((#[trigger] lc[p] == u32::MAX) <==> !has_child(gp, p))
    &&& forall|p: int|
        0 <= p < gp.len() && #[trigger] lc[p] != u32::MAX ==> {
            &&& lc[p] < gp.len()
            &&& gp[lc[p] as int] == p
            &&& forall|d: int| lc[p] < d < gp.len() ==> #[trigger] gp[d] != p
        }
}

/// The first-child links after a node is added under `q`.
pub open spec fn pushed_first(fc: Seq<u32>, lc: Seq<u32>, q: u32) -> Seq<u32> {
    let n = fc.len();
    (if q != u32::MAX && lc[q as int] == u32::MAX {
        fc.update(q as int, n as u32)
    } else {
        fc
    }).push(u32::MAX)
}

/// The next-sibling links after a node is added under `q`.
pub open spec fn pushed_next(ns: Seq<u32>, lc: Seq<u32>, q: u32) -> Seq<u32> {
    let n = ns.len();
    (if q != u32::MAX && lc[q as int] != u32::MAX {
        ns.update(lc[q as int] as int, n as u32)
    } else {
        ns
    }).push(u32::MAX)
}

/// The last-child links after a node is added under `q`.
pub open spec fn pushed_last(lc: Seq<u32>, q: u32) -> Seq<u32> {
    let n = lc.len();
    (if q != u32::MAX {
        lc.update(q as int, n as u32)
    } else {
        lc
    }).push(u32::MAX)
}

/// Adding a node under an earlier node (or as a root) keeps the links exact.
proof fn lemma_push_links(fc: Seq<u32>, ns: Seq<u32>, lc: Seq<u32>, gp: Seq<u32>, q: u32)
    requires
        tree_links(fc, ns, gp),
        last_links(lc, gp),
        q == u32::MAX || q < gp.len(),
        gp.len() + 1 < u32::MAX,
    ensures
        tree_links(
            pushed_first(fc, lc, q),
            pushed_next(ns, lc, q),
            gp.push(q),
        ),
        last_links(pushed_last(lc, q), gp.push(q)),
{
    let n = gp.len() as int;
    let gp2 = gp.push(q);
    let fc2 = pushed_first(fc, lc, q);
    let ns2 = pushed_next(ns, lc, q);
    let lc2 = pushed_last(lc, q);
    assert(gp2[n] == q);
    assert forall|p: int| 0 <= p < n && p != q implies has_child(gp2, p) == has_child(gp, p) by {
        if has_child(gp2, p) {
            let c = choose|c: int| 0 <= c < gp2.len() && #[trigger] gp2[c] == p;
            assert(gp[c] == p);
        }
        if has_child(gp, p) {
            let c = choose|c: int| 0 <= c < gp.len() && #[trigger] gp[c] == p;
            assert(gp2[c] == p);
        }
    }
    if q != u32::MAX {
        assert(has_child(gp2, q as int));
    }
    assert(!has_child(gp2, n)) by {
        if has_child(gp2, n) {
            let c = choose|c: int| 0 <= c < gp2.len() && #[trigger] gp2[c] == n;
            assert(gp2[c] == u32::MAX || gp2[c] < c);
        }
    }
    assert forall|c: int| 0 <= c < n && gp[c] != u32::MAX && gp[c] != q implies
        has_later_sibling(gp2, c) == has_later_sibling(gp, c) by {
        if has_later_sibling(gp2, c) {
            let d = choose|d: int| c < d < gp2.len() && #[trigger] gp2[d] == gp2[c];
            assert(d != n);
            assert(gp[d] == gp[c]);
        }
        if has_later_sibling(gp, c) {
            let d = choose|d: int| c < d < gp.len() && #[trigger] gp[d] == gp[c];
            assert(gp2[d] == gp2[c]);
        }
    }
    assert forall|c: int| 0 <= c < n && gp[c] == q && q != u32::MAX implies has_later_sibling(gp2, c) by {
        assert(gp2[n] == gp2[c]);
    }
    assert(!has_later_sibling(gp2, n));
    // the first-child links
    assert forall|p: int| 0 <= p < gp2.len() implies ((#[trigger] fc2[p] == u32::MAX)
        <==> !has_child(gp2, p)) by {
        if p < n && p == q as int && lc[q as int] != u32::MAX {
            assert(has_child(gp, p));
        }
    }
    assert forall|p: int| 0 <= p < gp2.len() && #[trigger] fc2[p] != u32::MAX implies {
        &&& fc2[p] < gp2.len()
        &&& gp2[fc2[p] as int] == p
        &&& forall|d: int| 0 <= d < fc2[p] ==> #[trigger] gp2[d] != p
    } by {
        if p == q as int && q != u32::MAX && lc[q as int] == u32::MAX {
            assert(fc2[p] == n);
            assert forall|d: int| 0 <= d < fc2[p] implies #[trigger] gp2[d] != p by {
                if gp2[d] == p {
                    assert(has_child(gp, p));
                }
            }
        } else {
            assert(fc2[p] == fc[p]);
            assert forall|d: int| 0 <= d < fc2[p] implies #[trigger] gp2[d] != p by {
                assert(gp2[d] == gp[d]);
            }
        }
    }
    // the next-sibling links
    assert forall|c: int| 0 <= c < gp2.len() implies ((#[trigger] ns2[c] == u32::MAX) <==> (
    gp2[c] == u32::MAX || !has_later_sibling(gp2, c))) by {
        if c < n && q != u32::MAX && lc[q as int] != u32::MAX && c == lc[q as int] {
            assert(gp[c] == q);
        } else if c < n {
            assert(ns2[c] == ns[c]);
            if gp[c] == q && q != u32::MAX && gp[c] != u32::MAX {
                // c is an earlier child of q than its last child
                assert(lc[q as int] != u32::MAX) by {
                    assert(has_child(gp, q as int));
                }
                assert(c < lc[q as int]);
                assert(has_later_sibling(gp, c)) by {
                    assert(gp[lc[q as int] as int] == gp[c]);
                }
            }
        }
    }
    assert forall|c: int| 0 <= c < gp2.len() && #[trigger] ns2[c] != u32::MAX implies {
        &&& c < ns2[c] < gp2.len()
        &&& gp2[ns2[c] as int] == gp2[c]
        &&& forall|d: int| c < d < ns2[c] ==> #[trigger] gp2[d] != gp2[c]
    } by {
        if c < n && q != u32::MAX && lc[q as int] != u32::MAX && c == lc[q as int] {
            assert(ns2[c] == n);
            assert forall|d: int| c < d < ns2[c] implies #[trigger] gp2[d] != gp2[c] by {
                assert(gp2[d] == gp[d]);
            }
        } else {
            assert(ns2[c] == ns[c]);
            assert forall|d: int| c < d < ns2[c] implies #[trigger] gp2[d] != gp2[c] by {
                assert(gp2[d] == gp[d]);
            }
        }
    }
    // the last-child links
    assert forall|p: int| 0 <= p < gp2.len() implies ((#[trigger] lc2[p] == u32::MAX)
        <==> !has_child(gp2, p)) by {
    }
    assert forall|p: int| 0 <= p < gp2.len() && #[trigger] lc2[p] != u32::MAX implies {
        &&& lc2[p] < gp2.len()
        &&& gp2[lc2[p] as int] == p
        &&& forall|d: int| lc2[p] < d < gp2.len() ==> #[trigger] gp2[d] != p
    } by {
        if p == q as int && q != u32::MAX {
        } else {
            assert(lc2[p] == lc[p]);
            assert forall|d: int| lc2[p] < d < gp2.len() implies #[trigger] gp2[d] != p by {
                if d < n {
                    assert(gp2[d] == gp[d]);
                }
            }
        }
    }
}

} // verus!

verus! {

/// The sibling chain from a child `s` of `p` runs through exactly the
/// children of `p` from `s` on.
proof fn lemma_chain_is_children(fc: Seq<u32>, ns: Seq<u32>, gp: Seq<u32>, s: int, c: int)
    requires
        tree_links(fc, ns, gp),
        0 <= s < gp.len(),
        gp[s] != u32::MAX,
    ensures
        in_chain(ns, s, c) <==> (0 <= c < gp.len() && gp[c] == gp[s] && s <= c),
    decreases gp.len() - s,
{
    if s != c && ns[s] != u32::MAX {
        let t = ns[s] as int;
        lemma_chain_is_children(fc, ns, gp, t, c);
        if 0 <= c < gp.len() && gp[c] == gp[s] && s < c && c < t {
            assert(gp[c] != gp[s]);
        }
    } else if s != c {
        if 0 <= c < gp.len() && gp[c] == gp[s] && s < c {
            assert(has_later_sibling(gp, s));
        }
    }
}

/// A node's child chain holds exactly its children.
proof fn lemma_child_chain(fc: Seq<u32>, ns: Seq<u32>, gp: Seq<u32>, p: int, c: int)
    requires
        tree_links(fc, ns, gp),
        0 <= p < gp.len(),
    ensures
        in_chain(ns, fc[p] as int, c) <==> (0 <= c < gp.len() && gp[c] == p),
{
    if fc[p] != u32::MAX {
        let s = fc[p] as int;
        lemma_chain_is_children(fc, ns, gp, s, c);
        if 0 <= c < gp.len() && gp[c] == p && c < s {
            assert(gp[c] != p);
        }
    } else {
        if 0 <= c < gp.len() && gp[c] == p {
            assert(has_child(gp, p));
        }
    }
}

proof fn lemma_last_parent_upto(fc: Seq<u32>, ns: Seq<u32>, gp: Seq<u32>, c: int, upto: int)
    requires
        tree_links(fc, ns, gp),
        0 <= c < gp.len(),
        0 <= upto <= gp.len(),
    ensures
        last_parent(fc, ns, c, upto) == if gp[c] != u32::MAX && gp[c] < upto {
            gp[c]
        } else {
            u32::MAX
        },
    decreases upto,
{
    if upto > 0 {
        lemma_child_chain(fc, ns, gp, upto - 1, c);
        lemma_last_parent_upto(fc, ns, gp, c, upto - 1);
    }
}

/// The child links that the flattening pass builds describe a preorder
/// forest, and the parents they give back are exactly the parents recorded
/// when each node was entered: deriving parents from the links agrees, node
/// for node, with the parent array kept during the pass.
pub proof fn lemma_links_give_parents(fc: Seq<u32>, ns: Seq<u32>, gp: Seq<u32>)
    requires
        tree_links(fc, ns, gp),
    ensures
        links_ok(fc, ns),
        forall|c: int|
            0 <= c < gp.len() ==> #[trigger] last_parent(fc, ns, c, gp.len() as int) == gp[c],
{
    assert forall|i: int| 0 <= i < fc.len() implies (#[trigger] fc[i] == u32::MAX || (i < fc[i]
        < fc.len())) by {
        if fc[i] != u32::MAX {
            assert(gp[fc[i] as int] == i);
        }
    }
    assert forall|c: int| 0 <= c < gp.len() implies #[trigger] last_parent(
        fc,
        ns,
        c,
        gp.len() as int,
    ) == gp[c] by {
        lemma_last_parent_upto(fc, ns, gp, c, gp.len() as int);
    }
}

} // verus!

verus! {

/// The flat indices of the enum declarations among `nodes`, in order.
pub open spec fn enum_positions(nodes: Seq<NodeKind>) -> Seq<u32>
    decreases nodes.len(),
{
    if nodes.len() == 0 {
        Seq::empty()
    } else {
        let prev = enum_positions(nodes.drop_last());
        if nodes.last() is TSEnumDeclaration {
            prev.push((nodes.len() - 1) as u32)
        } else {
            prev
        }
    }
}

/// Whether a binding or member name is one of the relevant roots (an empty
/// name never is: it has no first byte).
pub open spec fn relevant_name(roots: Seq<Seq<char>>, name: Seq<char>) -> bool {
    name_bytes(name).len() > 0 && roots.contains(name)
}

/// Whether an enum member's name may shadow a relevant root: a relevant
/// identifier or string name, or a computed template name, which cannot be
/// decoded here.
pub open spec fn member_collides(roots: Seq<Seq<char>>, m: EnumMemberName) -> bool {
    match m {
        EnumMemberName::Identifier(id) => relevant_name(roots, id@),
        EnumMemberName::StringLiteral(v) => relevant_name(roots, v@),
        EnumMemberName::ComputedString(v) => relevant_name(roots, v@),
        EnumMemberName::ComputedTemplateString => true,
    }
}

/// The relevant names bound among `nodes`, each once, in order of first
/// binding.
pub open spec fn bound_names(nodes: Seq<NodeKind>, roots: Seq<Seq<char>>) -> Seq<Seq<char>>
    decreases nodes.len(),
{
    if nodes.len() == 0 {
        Seq::empty()
    } else {
        let prev = bound_names(nodes.drop_last(), roots);
        match nodes.last() {
            NodeKind::BindingIdentifier(name) => if relevant_name(roots, name@) && !prev.contains(
                name@,
            ) {
                prev.push(name@)
            } else {
                prev
            },
            _ => prev,
        }
    }
}

/// Whether some node is a `with` statement.
pub open spec fn saw_with(nodes: Seq<NodeKind>) -> bool {
    exists|i: int| 0 <= i < nodes.len() && #[trigger] nodes[i] is WithStatement
}

/// Whether some node is a JSX element or fragment.
pub open spec fn saw_jsx(nodes: Seq<NodeKind>) -> bool {
    exists|i: int|
        0 <= i < nodes.len() && (#[trigger] nodes[i] is JSXElement || nodes[i] is JSXFragment)
}

/// Whether some enum member's name collides with a relevant root.
pub open spec fn saw_member_collision(nodes: Seq<NodeKind>, roots: Seq<Seq<char>>) -> bool {
    exists|i: int|
        0 <= i < nodes.len() && (#[trigger] nodes[i] matches NodeKind::TSEnumMember(m)
            && member_collides(roots, m))
}

/// What the flattening pass learned about a define-active file: `with`
/// presence, JSX presence, the relevant names actually bound, and whether an
/// enum member's name collides with a relevant root.
pub struct DefineGates {
    pub has_with: bool,
    pub has_jsx: bool,
    pub bound: Vec<String>,
    pub member_relevant: bool,
}

impl Default for DefineGates {
    /// Nothing seen yet.
    fn default() -> (g: Self)
        ensures
            !g.has_with,
            !g.has_jsx,
            g.bound@.len() == 0,
            !g.member_relevant,
    {
        DefineGates { has_with: false, has_jsx: false, bound: Vec::new(), member_relevant: false }
    }
}

/// Whether `gates` holds what `nodes` show about `roots` (with no roots, the
/// pass is ungated and the gates stay empty).
pub open spec fn gates_match(gates: DefineGates, nodes: Seq<NodeKind>, roots: Option<Seq<Seq<char>>>) -> bool {
    match roots {
        Some(roots) => {
            &&& gates.has_with == saw_with(nodes)
            &&& gates.has_jsx == saw_jsx(nodes)
            &&& gates.member_relevant == saw_member_collision(nodes, roots)
            &&& string_views(gates.bound@) == bound_names(nodes, roots)
        },
        None => {
            &&& !gates.has_with
            &&& !gates.has_jsx
            &&& gates.bound@.len() == 0
            &&& !gates.member_relevant
        },
    }
}

/// Whether `stack` is a path of open nodes: each below `n`, the first a
/// root, each later one a child of the one before.
pub open spec fn open_path(stack: Seq<u32>, gp: Seq<u32>) -> bool {
    &&& forall|k: int| 0 <= k < stack.len() ==> #[trigger] stack[k] < gp.len()
    &&& stack.len() > 0 ==> gp[stack[0] as int] == u32::MAX
    &&& forall|k: int| 0 < k < stack.len() ==> gp[#[trigger] stack[k] as int] == stack[k - 1]
}

/// A finished pass's node arrays and links, with the recorded parents and
/// gates of a define-active file.
pub struct FlatParts {
    pub nodes: Vec<NodeKind>,
    pub spans: Vec<(u32, u32)>,
    pub first_child: Vec<u32>,
    pub next_sibling: Vec<u32>,
    pub enum_indices: Vec<u32>,
    pub parent: Vec<u32>,
    pub gates: DefineGates,
    pub relevant: Vec<String>,
}

/// The flattening pass's state.
pub struct Flattener {
    nodes: Vec<NodeKind>,
    spans: Vec<(u32, u32)>,
    first_child: Vec<u32>,
    next_sibling: Vec<u32>,
    last_child: Vec<u32>,
    stack: Vec<u32>,
    enum_indices: Vec<u32>,
    parent: Vec<u32>,
    gates: DefineGates,
    gate_relevant: Option<Vec<String>>,
    gate_firsts: [u64; 4],
    /// each node's parent (`u32::MAX` for a root), kept whether or not the
    /// pass records parents
    tree: Ghost<Seq<u32>>,
}

impl Flattener {
    /// The nodes entered so far, in preorder.
    pub closed spec fn kinds(&self) -> Seq<NodeKind> {
        self.nodes@
    }

    /// The entered nodes' spans, in preorder.
    pub closed spec fn node_spans(&self) -> Seq<(u32, u32)> {
        self.spans@
    }

    /// Each entered node's parent: the innermost open node when it was
    /// entered, `u32::MAX` for none.
    pub closed spec fn parents(&self) -> Seq<u32> {
        self.tree@
    }

    /// The open nodes, outermost first.
    pub closed spec fn open_nodes(&self) -> Seq<u32> {
        self.stack@
    }

    /// The relevant roots of a gated pass; `None` for an ungated one.
    pub closed spec fn roots(&self) -> Option<Seq<Seq<char>>> {
        match self.gate_relevant {
            Some(roots) => Some(string_views(roots@)),
            None => None,
        }
    }

    /// The state's invariant: exact links, the open path, the enum indices,
    /// the parents (recorded only when gated) and the gates.
    pub closed spec fn well_formed(&self) -> bool {
        &&& self.nodes@.len() == self.tree@.len()
        &&& self.spans@.len() == self.nodes@.len()
        &&& tree_links(self.first_child@, self.next_sibling@, self.tree@)
        &&& last_links(self.last_child@, self.tree@)
        &&& open_path(self.stack@, self.tree@)
        &&& self.enum_indices@ == enum_positions(self.nodes@)
        &&& self.parent@ == if self.gate_relevant is Some {
            self.tree@
        } else {
            Seq::empty()
        }
        &&& gates_match(self.gates, self.nodes@, self.roots())
        &&& self.bitmap_ok()
    }

    /// Whether a gated pass's bitmap marks exactly its roots' first bytes.
    closed spec fn bitmap_ok(&self) -> bool {
        self.gate_relevant is Some ==> forall|byte: u8| #[trigger]
            bit_set(self.gate_firsts@, byte) == some_root_starts(self.roots()->0, byte)
    }

    /// An ungated pass: no parents and no gates are recorded.
    pub fn new() -> (f: Self)
        ensures
            f.well_formed(),
            f.kinds().len() == 0,
            f.node_spans().len() == 0,
            f.open_nodes().len() == 0,
            f.roots() is None,
    {
        Flattener {
            nodes: Vec::new(),
            spans: Vec::new(),
            first_child: Vec::new(),
            next_sibling: Vec::new(),
            last_child: Vec::new(),
            stack: Vec::new(),
            enum_indices: Vec::new(),
            parent: Vec::new(),
            gates: DefineGates::default(),
            gate_relevant: None,
            gate_firsts: [0u64; 4],
            tree: Ghost(Seq::empty()),
        }
    }

    /// A gated pass for the define-active case: the relevant roots and
    /// their first-byte bitmap are known up front.
    pub fn gated(relevant_roots: Vec<String>) -> (f: Self)
        ensures
            f.well_formed(),
            f.kinds().len() == 0,
            f.node_spans().len() == 0,
            f.open_nodes().len() == 0,
            f.roots() == Some(string_views(relevant_roots@)),
    {
        let gate_firsts = first_byte_bitmap(&relevant_roots);
        let f = Flattener {
            nodes: Vec::new(),
            spans: Vec::new(),
            first_child: Vec::new(),
            next_sibling: Vec::new(),
            last_child: Vec::new(),
            stack: Vec::new(),
            enum_indices: Vec::new(),
            parent: Vec::new(),
            gates: DefineGates::default(),
            gate_relevant: Some(relevant_roots),
            gate_firsts,
            tree: Ghost(Seq::empty()),
        };
        proof {
            assert(bound_names(f.nodes@, f.roots()->0) =~= Seq::<Seq<char>>::empty());
            assert(string_views(f.gates.bound@) =~= Seq::<Seq<char>>::empty());
            assert(f.parent@ =~= f.tree@);
            assert(f.enum_indices@ =~= enum_positions(f.nodes@));
        }
        f
    }
}

} // verus!

verus! {

/// Whether `list` holds a string equal to `name`.
fn contains_string(list: &Vec<String>, name: &String) -> (r: bool)
    ensures
        r == string_views(list@).contains(name@),
{
    let mut i: usize = 0;
    while i < list.len()
        invariant
            i <= list@.len(),
            forall|k: int| 0 <= k < i ==> list@[k]@ != name@,
        decreases list@.len() - i,
    {
        if list[i].eq(name) {
            proof {
                assert(string_views(list@)[i as int] == name@);
            }
            return true;
        }
        i += 1;
    }
    proof {
        if string_views(list@).contains(name@) {
            let k = choose|k: int| 0 <= k < string_views(list@).len() && string_views(list@)[k] == name@;
            assert(list@[k]@ == name@);
        }
    }
    false
}

proof fn lemma_saw_push(nodes: Seq<NodeKind>, k: NodeKind, roots: Seq<Seq<char>>)
    ensures
        saw_with(nodes.push(k)) == (saw_with(nodes) || k is WithStatement),
        saw_jsx(nodes.push(k)) == (saw_jsx(nodes) || k is JSXElement || k is JSXFragment),
        saw_member_collision(nodes.push(k), roots) == (saw_member_collision(nodes, roots) || (
        k matches NodeKind::TSEnumMember(m) && member_collides(roots, m))),
        bound_names(nodes.push(k), roots) == match k {
            NodeKind::BindingIdentifier(name) => if relevant_name(roots, name@) && !bound_names(
                nodes,
                roots,
            ).contains(name@) {
                bound_names(nodes, roots).push(name@)
            } else {
                bound_names(nodes, roots)
            },
            _ => bound_names(nodes, roots),
        },
        enum_positions(nodes.push(k)) == if k is TSEnumDeclaration {
            enum_positions(nodes).push(nodes.len() as u32)
        } else {
            enum_positions(nodes)
        },
{
    let next = nodes.push(k);
    assert(next.drop_last() =~= nodes);
    assert(next[nodes.len() as int] == k);
    if saw_with(nodes) {
        let i = choose|i: int| 0 <= i < nodes.len() && #[trigger] nodes[i] is WithStatement;
        assert(next[i] == nodes[i]);
    }
    if saw_with(next) && !(k is WithStatement) {
        let i = choose|i: int| 0 <= i < next.len() && #[trigger] next[i] is WithStatement;
        assert(nodes[i] == next[i]);
    }
    if saw_jsx(nodes) {
        let i = choose|i: int|
            0 <= i < nodes.len() && (#[trigger] nodes[i] is JSXElement || nodes[i] is JSXFragment);
        assert(next[i] == nodes[i]);
    }
    if saw_jsx(next) && !(k is JSXElement || k is JSXFragment) {
        let i = choose|i: int|
            0 <= i < next.len() && (#[trigger] next[i] is JSXElement || next[i] is JSXFragment);
        assert(nodes[i] == next[i]);
    }
    if saw_member_collision(nodes, roots) {
        let i = choose|i: int|
            0 <= i < nodes.len() && (#[trigger] nodes[i] matches NodeKind::TSEnumMember(m)
                && member_collides(roots, m));
        assert(next[i] == nodes[i]);
    }
    if saw_member_collision(next, roots) && !(k matches NodeKind::TSEnumMember(m)
        && member_collides(roots, m)) {
        let i = choose|i: int|
            0 <= i < next.len() && (#[trigger] next[i] matches NodeKind::TSEnumMember(m)
                && member_collides(roots, m));
        assert(nodes[i] == next[i]);
    }
}

impl Flattener {
    /// Whether `name` is one of the relevant roots, filtered first by the
    /// first-byte bitmap (a name starting with a byte no root starts with
    /// cannot match, so the string compares stay rare).
    fn is_relevant(&self, name: &String) -> (r: bool)
        requires
            self.bitmap_ok(),
            self.roots() is Some,
        ensures
            r == relevant_name(self.roots()->0, name@),
    {
        let first = starts_relevant(name.as_str(), &self.gate_firsts);
        let ghost roots = self.roots()->0;
        proof {
            if roots.contains(name@) && name_bytes(name@).len() > 0 {
                let k = choose|k: int| 0 <= k < roots.len() && roots[k] == name@;
                assert(name_bytes(roots[k]) == name_bytes(name@));
                assert(some_root_starts(roots, name_bytes(name@)[0]));
            }
        }
        if !first {
            return false;
        }
        match &self.gate_relevant {
            Some(list) => contains_string(list, name),
            None => false,
        }
    }

    /// The define gates, folded into the pass: `with` and JSX presence,
    /// relevant-name bindings and enum-member collisions.
    #[verifier::spinoff_prover]
    fn record_gates(&mut self, kind: &NodeKind)
        requires
            old(self).bitmap_ok(),
            old(self).roots() is Some,
            gates_match(old(self).gates, old(self).nodes@, old(self).roots()),
        ensures
            gates_match(final(self).gates, old(self).nodes@.push(*kind), old(self).roots()),
            final(self).nodes == old(self).nodes,
            final(self).spans == old(self).spans,
            final(self).first_child == old(self).first_child,
            final(self).next_sibling == old(self).next_sibling,
            final(self).last_child == old(self).last_child,
            final(self).stack == old(self).stack,
            final(self).enum_indices == old(self).enum_indices,
            final(self).parent == old(self).parent,
            final(self).gate_relevant == old(self).gate_relevant,
            final(self).gate_firsts == old(self).gate_firsts,
            final(self).tree == old(self).tree,
    {
        let ghost roots = self.roots()->0;
        proof {
            lemma_saw_push(self.nodes@, *kind, roots);
        }
        match kind {
            NodeKind::WithStatement { .. } => self.gates.has_with = true,
            NodeKind::JSXElement | NodeKind::JSXFragment => self.gates.has_jsx = true,
            NodeKind::BindingIdentifier(name) => {
                let relevant = self.is_relevant(name);
                if relevant && !contains_string(&self.gates.bound, name) {
                    let ghost before = self.gates.bound@;
                    self.gates.bound.push(name.clone());
                    proof {
                        assert(string_views(self.gates.bound@) =~= string_views(before).push(name@));
                    }
                }
            },
            NodeKind::TSEnumMember(member) => {
                let collides = match member {
                    EnumMemberName::Identifier(id) => self.is_relevant(id),
                    EnumMemberName::StringLiteral(value) => self.is_relevant(value),
                    EnumMemberName::ComputedString(value) => self.is_relevant(value),
                    EnumMemberName::ComputedTemplateString => true,
                };
                self.gates.member_relevant = self.gates.member_relevant || collides;
            },
            _ => {},
        }
    }

    /// Enter one node spanning `[start, end)`: it gets the next flat index,
    /// is linked under the innermost open node (or stands as a root) and
    /// becomes the innermost open node itself.
    #[verifier::spinoff_prover]
    #[verifier::rlimit(50)]
    pub fn enter_node(&mut self, kind: NodeKind, start: u32, end: u32)
        requires
            old(self).well_formed(),
            old(self).kinds().len() + 1 < u32::MAX,
        ensures
            final(self).well_formed(),
            final(self).kinds() == old(self).kinds().push(kind),
            final(self).node_spans() == old(self).node_spans().push((start, end)),
            final(self).parents() == old(self).parents().push(
                if old(self).open_nodes().len() > 0 {
                    old(self).open_nodes().last()
                } else {
                    u32::MAX
                },
            ),
            final(self).open_nodes() == old(self).open_nodes().push(old(self).kinds().len() as u32),
            final(self).roots() == old(self).roots(),
    {
        let index = self.nodes.len() as u32;
        proof {
            lemma_saw_push(self.nodes@, kind, if self.roots() is Some { self.roots()->0 } else { Seq::empty() });
        }
        if let NodeKind::TSEnumDeclaration = kind {
            self.enum_indices.push(index);
        }
        let parent = if self.stack.len() > 0 {
            Some(self.stack[self.stack.len() - 1])
        } else {
            None
        };
        let ghost q: u32 = match parent {
            Some(p) => p,
            None => u32::MAX,
        };
        let ghost (fc0, ns0, lc0, gp0) = (self.first_child@, self.next_sibling@, self.last_child@, self.tree@);
        proof {
            lemma_push_links(fc0, ns0, lc0, gp0, q);
        }
        if let Some(parent) = parent {
            let last = self.last_child[parent as usize];
            if last == u32::MAX {
                self.first_child.set(parent as usize, index);
            } else {
                self.next_sibling.set(last as usize, index);
            }
            self.last_child.set(parent as usize, index);
        }
        if self.gate_relevant.is_some() {
            self.parent.push(match parent {
                Some(p) => p,
                None => u32::MAX,
            });
            self.record_gates(&kind);
        }
        self.stack.push(index);
        self.nodes.push(kind);
        self.spans.push((start, end));
        self.first_child.push(u32::MAX);
        self.next_sibling.push(u32::MAX);
        self.last_child.push(u32::MAX);
        proof {
            self.tree@ = gp0.push(q);
            assert(self.first_child@ =~= pushed_first(fc0, lc0, q));
            assert(self.next_sibling@ =~= pushed_next(ns0, lc0, q));
            assert(self.last_child@ =~= pushed_last(lc0, q));
        }
    }

    /// Leave the innermost open node.
    pub fn leave_node(&mut self)
        requires
            old(self).well_formed(),
        ensures
            final(self).well_formed(),
            final(self).kinds() == old(self).kinds(),
            final(self).node_spans() == old(self).node_spans(),
            final(self).parents() == old(self).parents(),
            final(self).open_nodes() == if old(self).open_nodes().len() > 0 {
                old(self).open_nodes().drop_last()
            } else {
                old(self).open_nodes()
            },
            final(self).roots() == old(self).roots(),
    {
        self.stack.pop();
    }

    /// The arrays the pass built, and what it recorded when gated.
    pub fn into_parts(self) -> (parts: FlatParts)
        requires
            self.well_formed(),
        ensures
            parts.nodes@ == self.kinds(),
            parts.spans@ == self.node_spans(),
            tree_links(parts.first_child@, parts.next_sibling@, self.parents()),
            parts.enum_indices@ == enum_positions(self.kinds()),
            parts.parent@ == if self.roots() is Some {
                self.parents()
            } else {
                Seq::empty()
            },
            gates_match(parts.gates, self.kinds(), self.roots()),
            string_views(parts.relevant@) == match self.roots() {
                Some(roots) => roots,
                None => Seq::empty(),
            },
    {
        let relevant = match self.gate_relevant {
            Some(roots) => roots,
            None => Vec::new(),
        };
        proof {
            assert(self.roots() is None ==> string_views(relevant@) =~= Seq::<Seq<char>>::empty());
        }
        FlatParts {
            nodes: self.nodes,
            spans: self.spans,
            first_child: self.first_child,
            next_sibling: self.next_sibling,
            enum_indices: self.enum_indices,
            parent: self.parent,
            gates: self.gates,
            relevant,
        }
    }
}

/// One step of a preorder walk of the syntax tree: entering a node of a
/// kind over `[start, end)`, or leaving the innermost open node.
pub enum FlatEvent {
    Enter { kind: NodeKind, start: u32, end: u32 },
    Leave,
}

/// The pass's state after the first `n` events of a walk: the kinds, the
/// spans and the parents of the entered nodes, and the open nodes
/// (outermost first). Entering links the node under the innermost open one
/// (`u32::MAX` for none) and opens it; leaving closes the innermost.
pub open spec fn walk_state(events: Seq<FlatEvent>, n: nat) -> (
    Seq<NodeKind>,
    Seq<(u32, u32)>,
    Seq<u32>,
    Seq<u32>,
)
    decreases n,
{
    if n == 0 || n > events.len() {
        (Seq::empty(), Seq::empty(), Seq::empty(), Seq::empty())
    } else {
        let (k, s, p, o) = walk_state(events, (n - 1) as nat);
        match events[n - 1] {
            FlatEvent::Enter { kind, start, end } => (
                k.push(kind),
                s.push((start, end)),
                p.push(
                    if o.len() > 0 {
                        o.last()
                    } else {
                        u32::MAX
                    },
                ),
                o.push(k.len() as u32),
            ),
            FlatEvent::Leave => (k, s, p, if o.len() > 0 {
                o.drop_last()
            } else {
                o
            }),
        }
    }
}

/// Flatten a preorder walk: every entered node gets the next flat index and
/// is linked under the innermost open node. With `relevant` roots the pass
/// is gated: it also records parents and the define gates.
pub fn flatten_events(events: Vec<FlatEvent>, relevant: Option<Vec<String>>) -> (parts: FlatParts)
    requires
        events@.len() < u32::MAX,
    ensures
        parts.nodes@ == walk_state(events@, events@.len()).0,
        parts.spans@ == walk_state(events@, events@.len()).1,
        tree_links(parts.first_child@, parts.next_sibling@, walk_state(events@, events@.len()).2),
        parts.enum_indices@ == enum_positions(walk_state(events@, events@.len()).0),
        parts.parent@ == if relevant is Some {
            walk_state(events@, events@.len()).2
        } else {
            Seq::empty()
        },
        gates_match(
            parts.gates,
            walk_state(events@, events@.len()).0,
            match relevant {
                Some(roots) => Some(string_views(roots@)),
                None => None,
            },
        ),
        string_views(parts.relevant@) == match relevant {
            Some(roots) => string_views(roots@),
            None => Seq::empty(),
        },
{
    let ghost all = events@;
    let ghost roots: Option<Seq<Seq<char>>> = match &relevant {
        Some(r) => Some(string_views(r@)),
        None => None,
    };
    let mut f = match relevant {
        Some(r) => Flattener::gated(r),
        None => Flattener::new(),
    };
    // reverse the events so that popping yields them in walk order
    let mut pending: Vec<FlatEvent> = Vec::new();
    let mut source = events;
    while source.len() > 0
        invariant
            pending@.len() + source@.len() == all.len(),
            source@ == all.take(source@.len() as int),
            forall|j: int| 0 <= j < pending@.len() ==> #[trigger] pending@[j] == all[all.len() - 1 - j],
        decreases source@.len(),
    {
        let ev = source.pop().unwrap();
        proof {
            assert(ev == all[source@.len() as int]);
        }
        pending.push(ev);
        proof {
            assert(source@ =~= all.take(source@.len() as int));
        }
    }
    let mut i: usize = 0;
    while pending.len() > 0
        invariant
            i + pending@.len() == all.len(),
            all.len() < u32::MAX,
            forall|j: int| 0 <= j < pending@.len() ==> #[trigger] pending@[j] == all[all.len() - 1 - j],
            f.well_formed(),
            f.roots() == roots,
            f.kinds() == walk_state(all, i as nat).0,
            f.node_spans() == walk_state(all, i as nat).1,
            f.parents() == walk_state(all, i as nat).2,
            f.open_nodes() == walk_state(all, i as nat).3,
            f.kinds().len() <= i,
        decreases pending@.len(),
    {
        let ev = pending.pop().unwrap();
        proof {
            assert(ev == all[i as int]);
        }
        match ev {
            FlatEvent::Enter { kind, start, end } => {
                f.enter_node(kind, start, end);
            },
            FlatEvent::Leave => {
                f.leave_node();
            },
        }
        i += 1;
    }
    f.into_parts()
}

} // verus!
