//! esbuild-style defines: compile-time replacement of global references.
//! Keys are identifier-rooted member paths — `__DEV__`,
//! `process.env.NODE_ENV`, `x.y["z!"]`, with `this` and `import.meta` as
//! alternate roots — parsed with the oxc expression parser so spelling,
//! keywords-as-properties and string escapes are validated exactly like
//! source. Values are the source text of a primitive literal or an entity
//! name, spliced verbatim.

use oxc_ast::ast::{Expression, UnaryOperator};
use oxc_span::GetSpan;
use vstd::prelude::*;
use vstd::string::StringExecFns;

use crate::chars::{sorted_set, strictly_sorted, views};
use crate::replace::{distinct_keys, find_chars, lemma_same_elements_same_len, lemma_sorted_no_duplicates, user_keys};

verus! {

/// The root of a define key (and of a member chain matched against it).
pub enum ChainRoot {
    /// a bare identifier, subject to scope shadowing
    Ident(String),
    /// `this`, only meaningful at a function's top level
    This,
    /// `import.meta`
    ImportMeta,
}

/// A root as plain values: 0 with the name for an identifier, 1 for
/// `this`, 2 for `import.meta`.
pub open spec fn root_view(r: ChainRoot) -> (int, Seq<char>) {
    match r {
        ChainRoot::Ident(name) => (0, name@),
        ChainRoot::This => (1, Seq::empty()),
        ChainRoot::ImportMeta => (2, Seq::empty()),
    }
}

/// An optional root as plain values.
pub open spec fn opt_root_view(r: Option<ChainRoot>) -> Option<(int, Seq<char>)> {
    match r {
        Some(root) => Some(root_view(root)),
        None => None,
    }
}

/// Whether two roots are the same.
pub fn same_root(a: &ChainRoot, b: &ChainRoot) -> (r: bool)
    ensures
        r == (root_view(*a) == root_view(*b)),
{
    match (a, b) {
        (ChainRoot::Ident(x), ChainRoot::Ident(y)) => x.eq(y),
        (ChainRoot::This, ChainRoot::This) => true,
        (ChainRoot::ImportMeta, ChainRoot::ImportMeta) => true,
        _ => false,
    }
}

/// One validated replacement: the splice text plus what the splice sites
/// need to know about it.
pub struct DefineValue {
    /// the expression's own source slice (or the canonical `void 0` form)
    pub text: String,
    /// a numeric literal or its negation
    pub numeric: bool,
    /// a negative numeric literal (`-1`)
    pub negative: bool,
    /// a string literal
    pub string: bool,
    /// the root of an entity value; `None` for literals
    pub root: Option<ChainRoot>,
    /// an entity with at least one property segment
    pub dotted: bool,
    /// whether a write target may take this value
    pub assignable: bool,
    /// unary-precedence text (`-1`, `void 0`)
    pub unary: bool,
}

/// One registered key: its root and its property segments in key order.
pub struct DefineKey {
    pub root: ChainRoot,
    pub segments: Vec<String>,
}

/// A key as plain values.
pub open spec fn key_view(k: DefineKey) -> ((int, Seq<char>), Seq<Seq<char>>) {
    (root_view(k.root), k.segments@.map_values(|s: String| s@))
}

/// The lookup table: every registered key with the value it maps to, in
/// registration order.
pub struct Defines {
    keys: Vec<DefineKey>,
    values: Vec<DefineValue>,
}

/// The last registration among the first `n` whose key is exactly `key`.
pub open spec fn last_key(keys: Seq<((int, Seq<char>), Seq<Seq<char>>)>, key: ((int, Seq<char>), Seq<Seq<char>>), n: int) -> Option<int>
    decreases n,
{
    if n <= 0 {
        None
    } else if keys[n - 1] == key {
        Some(n - 1)
    } else {
        last_key(keys, key, n - 1)
    }
}

/// Whether a multi-segment key with root `root` spells `chain` (the
/// property names from the outermost member inward, tail first).
pub open spec fn dotted_match(
    key: ((int, Seq<char>), Seq<Seq<char>>),
    chain: Seq<Seq<char>>,
    root: (int, Seq<char>),
) -> bool {
    &&& key.1.len() > 0
    &&& key.1.len() == chain.len()
    &&& key.0 == root
    &&& forall|i: int| 0 <= i < chain.len() ==> #[trigger] chain[i] == key.1[key.1.len() - 1 - i]
}

/// The first registration from `i` on whose key spells `chain`.
pub open spec fn first_dotted(
    keys: Seq<((int, Seq<char>), Seq<Seq<char>>)>,
    chain: Seq<Seq<char>>,
    root: (int, Seq<char>),
    i: int,
) -> Option<int>
    decreases keys.len() - i,
{
    if i < 0 || i >= keys.len() {
        None
    } else if dotted_match(keys[i], chain, root) {
        Some(i)
    } else {
        first_dotted(keys, chain, root, i + 1)
    }
}

/// The most segments among the first `n` multi-segment keys whose last
/// segment is `tail`.
pub open spec fn max_chain(keys: Seq<((int, Seq<char>), Seq<Seq<char>>)>, tail: Seq<char>, n: int) -> Option<nat>
    decreases n,
{
    if n <= 0 {
        None
    } else {
        let rest = max_chain(keys, tail, n - 1);
        let k = keys[n - 1];
        if k.1.len() > 0 && k.1.last() == tail {
            match rest {
                Some(m) => Some(if m >= k.1.len() { m } else { k.1.len() }),
                None => Some(k.1.len()),
            }
        } else {
            rest
        }
    }
}

impl Defines {
    /// The registered keys, as plain values, in registration order.
    pub closed spec fn key_views(&self) -> Seq<((int, Seq<char>), Seq<Seq<char>>)> {
        self.keys@.map_values(|k: DefineKey| key_view(k))
    }

    /// The registered values, in registration order.
    pub closed spec fn value_list(&self) -> Seq<DefineValue> {
        self.values@
    }

    /// The table invariant: one value per key.
    pub closed spec fn well_formed(&self) -> bool {
        self.keys@.len() == self.values@.len()
    }

    /// An empty table.
    pub fn empty() -> (d: Self)
        ensures
            d.well_formed(),
            d.key_views().len() == 0,
            d.value_list().len() == 0,
    {
        let d = Defines { keys: Vec::new(), values: Vec::new() };
        assert(d.key_views() =~= Seq::empty());
        d
    }

    /// Register `key` → `value` after every earlier registration.
    pub fn register(&mut self, key: DefineKey, value: DefineValue)
        requires
            old(self).well_formed(),
        ensures
            final(self).well_formed(),
            final(self).key_views() == old(self).key_views().push(key_view(key)),
            final(self).value_list() == old(self).value_list().push(value),
    {
        let ghost kv = key_view(key);
        self.keys.push(key);
        self.values.push(value);
        assert(self.key_views() =~= old(self).key_views().push(kv));
    }

    /// Whether no define is registered.
    pub fn is_empty(&self) -> (r: bool)
        requires
            self.well_formed(),
        ensures
            r == (self.value_list().len() == 0),
    {
        self.values.len() == 0
    }

    /// The value of the last registration whose key is exactly `key`.
    fn last_value(&self, root: &ChainRoot) -> (r: Option<&DefineValue>)
        requires
            self.well_formed(),
        ensures
            match last_key(self.key_views(), (root_view(*root), Seq::empty()), self.key_views().len() as int) {
                Some(i) => r == Some(&self.value_list()[i]),
                None => r is None,
            },
    {
        let ghost target = (root_view(*root), Seq::<Seq<char>>::empty());
        let mut n = self.keys.len();
        while n > 0
            invariant
                self.well_formed(),
                n <= self.keys@.len(),
                target == (root_view(*root), Seq::<Seq<char>>::empty()),
                last_key(self.key_views(), target, self.key_views().len() as int) == last_key(
                    self.key_views(),
                    target,
                    n as int,
                ),
            decreases n,
        {
            let key = &self.keys[n - 1];
            proof {
                assert(self.key_views()[n - 1] == key_view(*key));
            }
            if key.segments.len() == 0 && same_root(&key.root, root) {
                proof {
                    assert(key_view(*key).1 =~= Seq::<Seq<char>>::empty());
                    assert(key_view(*key) == target);
                    assert(self.key_views()[n - 1] == target);
                    assert(last_key(self.key_views(), target, n as int) == Some(n - 1));
                    assert(self.value_list()[n - 1] == self.values@[n - 1]);
                }
                return Some(&self.values[n - 1]);
            }
            proof {
                if key_view(*key) == target {
                    assert(key_view(*key).1.len() == 0);
                }
            }
            n -= 1;
        }
        None
    }

    /// The value a bare identifier reference maps to, if any.
    pub fn identifier(&self, name: &str) -> (r: Option<&DefineValue>)
        requires
            self.well_formed(),
        ensures
            match last_key(self.key_views(), ((0, name@), Seq::empty()), self.key_views().len() as int) {
                Some(i) => r == Some(&self.value_list()[i]),
                None => r is None,
            },
    {
        let root = ChainRoot::Ident(name.to_owned());
        self.last_value(&root)
    }

    /// The value `this` maps to, if any.
    pub fn this(&self) -> (r: Option<&DefineValue>)
        requires
            self.well_formed(),
        ensures
            match last_key(self.key_views(), ((1, Seq::empty()), Seq::empty()), self.key_views().len() as int) {
                Some(i) => r == Some(&self.value_list()[i]),
                None => r is None,
            },
    {
        self.last_value(&ChainRoot::This)
    }

    /// The value `import.meta` maps to, if any.
    pub fn import_meta(&self) -> (r: Option<&DefineValue>)
        requires
            self.well_formed(),
        ensures
            match last_key(self.key_views(), ((2, Seq::empty()), Seq::empty()), self.key_views().len() as int) {
                Some(i) => r == Some(&self.value_list()[i]),
                None => r is None,
            },
    {
        self.last_value(&ChainRoot::ImportMeta)
    }

    /// The longest multi-segment key ending in `tail`, if any — the chain
    /// builder stops after that many segments.
    pub fn max_dotted_chain(&self, tail: &str) -> (r: Option<usize>)
        requires
            self.well_formed(),
        ensures
            match max_chain(self.key_views(), tail@, self.key_views().len() as int) {
                Some(m) => r == Some(m as usize),
                None => r is None,
            },
    {
        let mut best: Option<usize> = None;
        let mut n: usize = 0;
        while n < self.keys.len()
            invariant
                self.well_formed(),
                n <= self.keys@.len(),
                match max_chain(self.key_views(), tail@, n as int) {
                    Some(m) => m <= usize::MAX && best == Some(m as usize),
                    None => best is None,
                },
            decreases self.keys@.len() - n,
        {
            let key = &self.keys[n];
            proof {
                assert(self.key_views()[n as int] == key_view(*key));
            }
            let len = key.segments.len();
            if len > 0 && key.segments[len - 1].eq(&tail.to_owned()) {
                proof {
                    assert(key_view(*key).1.last() == key.segments@[len - 1]@);
                }
                best = match best {
                    Some(m) => Some(if m >= len { m } else { len }),
                    None => Some(len),
                };
            } else {
                proof {
                    if len > 0 {
                        assert(key_view(*key).1.last() == key.segments@[len - 1]@);
                    }
                }
            }
            n += 1;
        }
        best
    }

    /// The value a member chain maps to. `chain` holds the property names
    /// from the outermost member inward (tail first); matching is exact
    /// over the whole key, root included, and the first registration
    /// wins.
    pub fn dotted(&self, chain: &[&str], root: &ChainRoot) -> (r: Option<&DefineValue>)
        requires
            self.well_formed(),
        ensures
            chain@.len() == 0 ==> r is None,
            chain@.len() > 0 ==> match first_dotted(
                self.key_views(),
                chain@.map_values(|s: &str| s@),
                root_view(*root),
                0,
            ) {
                Some(i) => r == Some(&self.value_list()[i]),
                None => r is None,
            },
    {
        if chain.len() == 0 {
            return None;
        }
        let ghost cv = chain@.map_values(|s: &str| s@);
        let ghost rv = root_view(*root);
        let mut i: usize = 0;
        while i < self.keys.len()
            invariant
                self.well_formed(),
                i <= self.keys@.len(),
                cv == chain@.map_values(|s: &str| s@),
                rv == root_view(*root),
                first_dotted(self.key_views(), cv, rv, 0) == first_dotted(
                    self.key_views(),
                    cv,
                    rv,
                    i as int,
                ),
            decreases self.keys@.len() - i,
        {
            let key = &self.keys[i];
            proof {
                assert(self.key_views()[i as int] == key_view(*key));
            }
            if self.key_spells(key, chain, root) {
                return Some(&self.values[i]);
            }
            i += 1;
        }
        None
    }

    /// Whether `key` is a multi-segment key with root `root` spelling
    /// `chain` tail first.
    fn key_spells(&self, key: &DefineKey, chain: &[&str], root: &ChainRoot) -> (r: bool)
        ensures
            r == dotted_match(key_view(*key), chain@.map_values(|s: &str| s@), root_view(*root)),
    {
        let len = key.segments.len();
        let ghost kv = key_view(*key);
        let ghost cv = chain@.map_values(|s: &str| s@);
        if len == 0 || len != chain.len() || !same_root(&key.root, root) {
            return false;
        }
        let mut j: usize = 0;
        while j < len
            invariant
                len == key.segments@.len(),
                len == chain@.len(),
                kv == key_view(*key),
                cv == chain@.map_values(|s: &str| s@),
                j <= len,
                forall|i: int| 0 <= i < j ==> #[trigger] cv[i] == kv.1[kv.1.len() - 1 - i],
            decreases len - j,
        {
            let segment = &key.segments[len - 1 - j];
            let wanted = chain[j].to_owned();
            if !segment.eq(&wanted) {
                proof {
                    assert(cv[j as int] != kv.1[kv.1.len() - 1 - j]);
                }
                return false;
            }
            j += 1;
        }
        true
    }
}

/// The kind of a literal expression.
pub enum LiteralKind {
    Boolean,
    Null,
    Str,
    BigInt,
    Numeric,
}

/// What the define logic reads of a parsed expression: its kind, the parts
/// a member chain is made of, and byte spans into the parsed text.
pub enum ExprShape {
    Identifier { name: String, start: u32, end: u32 },
    This { start: u32, end: u32 },
    ImportMeta { start: u32, end: u32 },
    StaticMember { object: Box<ExprShape>, property: String, start: u32, end: u32 },
    /// `object["key"]`; `key` is the string literal's value, `None` for any
    /// other computed key
    ComputedMember { object: Box<ExprShape>, key: Option<String>, start: u32, end: u32 },
    Literal { kind: LiteralKind, start: u32, end: u32 },
    /// a unary expression; `negation` for unary minus
    Unary { negation: bool, argument: Box<ExprShape>, start: u32, end: u32 },
    /// anything else
    Other { start: u32, end: u32 },
}

/// Where an expression's span starts.
pub open spec fn shape_start(e: ExprShape) -> u32 {
    match e {
        ExprShape::Identifier { start, .. } => start,
        ExprShape::This { start, .. } => start,
        ExprShape::ImportMeta { start, .. } => start,
        ExprShape::StaticMember { start, .. } => start,
        ExprShape::ComputedMember { start, .. } => start,
        ExprShape::Literal { start, .. } => start,
        ExprShape::Unary { start, .. } => start,
        ExprShape::Other { start, .. } => start,
    }
}

/// Where an expression's span ends.
pub open spec fn shape_end(e: ExprShape) -> u32 {
    match e {
        ExprShape::Identifier { end, .. } => end,
        ExprShape::This { end, .. } => end,
        ExprShape::ImportMeta { end, .. } => end,
        ExprShape::StaticMember { end, .. } => end,
        ExprShape::ComputedMember { end, .. } => end,
        ExprShape::Literal { end, .. } => end,
        ExprShape::Unary { end, .. } => end,
        ExprShape::Other { end, .. } => end,
    }
}

/// A key expression split into root and segments (key order), if it is a
/// dotted identifier path: members over an identifier, `this` or
/// `import.meta`, computed members only with string keys.
pub open spec fn key_parts(e: ExprShape) -> Option<((int, Seq<char>), Seq<Seq<char>>)>
    decreases e,
{
    match e {
        ExprShape::Identifier { name, .. } => Some(((0, name@), Seq::empty())),
        ExprShape::This { .. } => Some(((1, Seq::empty()), Seq::empty())),
        ExprShape::ImportMeta { .. } => Some(((2, Seq::empty()), Seq::empty())),
        ExprShape::StaticMember { object, property, .. } => match key_parts(*object) {
            Some((root, segments)) => Some((root, segments.push(property@))),
            None => None,
        },
        ExprShape::ComputedMember { object, key, .. } => match key {
            Some(k) => match key_parts(*object) {
                Some((root, segments)) => Some((root, segments.push(k@))),
                None => None,
            },
            None => None,
        },
        _ => None,
    }
}

/// The entity root of a value expression: `Some(None)` for a literal,
/// `Some(Some(root))` for a static member chain over an identifier, `this`
/// or `import.meta`, `None` otherwise.
pub open spec fn entity_root(e: ExprShape) -> Option<Option<(int, Seq<char>)>>
    decreases e,
{
    match e {
        ExprShape::Literal { .. } => Some(None),
        ExprShape::Identifier { name, .. } => Some(Some((0, name@))),
        ExprShape::This { .. } => Some(Some((1, Seq::empty()))),
        ExprShape::ImportMeta { .. } => Some(Some((2, Seq::empty()))),
        ExprShape::StaticMember { object, .. } => entity_root(*object),
        _ => None,
    }
}

/// Whether the expression is a member access (carries a property above
/// its root).
pub open spec fn is_member(e: ExprShape) -> bool {
    e is StaticMember || e is ComputedMember
}

/// The end of the node at the bottom of a member chain.
pub open spec fn root_end(e: ExprShape) -> u32
    decreases e,
{
    match e {
        ExprShape::StaticMember { object, .. } => root_end(*object),
        ExprShape::ComputedMember { object, .. } => root_end(*object),
        _ => shape_end(e),
    }
}

/// Whether every span of the expression lies in `bytes` on character
/// boundaries, each member's span covering its object's.
pub open spec fn spans_ok(e: ExprShape, bytes: Seq<u8>) -> bool
    decreases e,
{
    &&& shape_start(e) <= shape_end(e) <= bytes.len()
    &&& vstd::utf8::is_char_boundary(bytes, shape_start(e) as int)
    &&& vstd::utf8::is_char_boundary(bytes, shape_end(e) as int)
    &&& match e {
        ExprShape::StaticMember { object, start, end, .. } => shape_start(*object) >= start
            && shape_end(*object) <= end && spans_ok(*object, bytes),
        ExprShape::ComputedMember { object, start, end, .. } => shape_start(*object) >= start
            && shape_end(*object) <= end && spans_ok(*object, bytes),
        _ => true,
    }
}

/// The characters between two byte offsets of `text`.
pub open spec fn span_text(text: Seq<char>, start: int, end: int) -> Seq<char> {
    vstd::utf8::decode_utf8(vstd::utf8::encode_utf8(text).subrange(start, end))
}

/// The key parse error.
pub open spec fn key_shape_error() -> Seq<char> {
    "must be a dotted identifier path"@
}

/// The value parse error.
pub open spec fn value_shape_error() -> Seq<char> {
    "must be a primitive literal or an entity name"@
}

/// Whether the expression is a negated numeric literal (`-1`).
pub open spec fn is_negative_literal(e: ExprShape) -> bool {
    e matches ExprShape::Unary { negation, argument, .. } && negation && (*argument matches ExprShape::Literal {
        kind: LiteralKind::Numeric,
        ..
    })
}

/// Whether `v` is what the value expression `e` over `text` makes: a
/// negated number, a literal or entity spliced as its own text, or
/// `undefined` canonicalized to `void 0`.
pub open spec fn value_made(text: Seq<char>, e: ExprShape, v: DefineValue) -> bool {
    if is_negative_literal(e) {
        &&& v.text@ == span_text(text, shape_start(e) as int, shape_end(e) as int)
        &&& v.numeric && v.negative && !v.string && v.root is None && !v.dotted && !v.assignable
            && v.unary
    } else {
        let root = entity_root(e)->0;
        let dotted = is_member(e);
        if root matches Some((kind, name)) && kind == 0 && name == "undefined"@ {
            &&& v.text@ == (if dotted {
                "(void 0)"@ + span_text(text, root_end(e) as int, shape_end(e) as int)
            } else {
                "void 0"@
            })
            &&& !v.numeric && !v.negative && !v.string && v.root is None
            &&& v.dotted == dotted && v.assignable == dotted && v.unary == !dotted
        } else {
            &&& v.text@ == span_text(text, shape_start(e) as int, shape_end(e) as int)
            &&& v.numeric == (e matches ExprShape::Literal { kind: LiteralKind::Numeric, .. })
            &&& !v.negative
            &&& v.string == (e matches ExprShape::Literal { kind: LiteralKind::Str, .. })
            &&& opt_root_view(v.root) == root
            &&& v.dotted == dotted
            &&& v.assignable == (root matches Some((kind, _)) && (kind == 0 || dotted))
            &&& !v.unary
        }
    }
}

/// Whether a value expression is accepted: a negated number, or a literal
/// or an entity chain (a literal carries no members).
pub open spec fn value_accepted(e: ExprShape) -> bool {
    is_negative_literal(e) || (entity_root(e) is Some && !(entity_root(e) == Some(
        None::<(int, Seq<char>)>,
    ) && is_member(e)))
}

/// Split a key expression into root and segments.
fn key_walk(e: &ExprShape) -> (r: Option<(ChainRoot, Vec<String>)>)
    ensures
        match key_parts(*e) {
            Some((root, segments)) => r matches Some((rr, rs)) && root_view(rr) == root && rs@.map_values(
                |s: String| s@,
            ) == segments,
            None => r is None,
        },
    decreases e,
{
    match e {
        ExprShape::Identifier { name, .. } => {
            let segments: Vec<String> = Vec::new();
            assert(segments@.map_values(|s: String| s@) =~= Seq::empty());
            Some((ChainRoot::Ident(name.clone()), segments))
        },
        ExprShape::This { .. } => {
            let segments: Vec<String> = Vec::new();
            assert(segments@.map_values(|s: String| s@) =~= Seq::empty());
            Some((ChainRoot::This, segments))
        },
        ExprShape::ImportMeta { .. } => {
            let segments: Vec<String> = Vec::new();
            assert(segments@.map_values(|s: String| s@) =~= Seq::empty());
            Some((ChainRoot::ImportMeta, segments))
        },
        ExprShape::StaticMember { object, property, .. } => match key_walk(object) {
            Some((root, mut segments)) => {
                let ghost before = segments@.map_values(|s: String| s@);
                segments.push(property.clone());
                assert(segments@.map_values(|s: String| s@) =~= before.push(property@));
                Some((root, segments))
            },
            None => None,
        },
        ExprShape::ComputedMember { object, key, .. } => match key {
            Some(k) => match key_walk(object) {
                Some((root, mut segments)) => {
                    let ghost before = segments@.map_values(|s: String| s@);
                    segments.push(k.clone());
                    assert(segments@.map_values(|s: String| s@) =~= before.push(k@));
                    Some((root, segments))
                },
                None => None,
            },
            None => None,
        },
        _ => None,
    }
}

/// A key expression split into root and segments (key order), or the
/// shape error.
pub fn key_from_shape(e: &ExprShape) -> (r: Result<(ChainRoot, Vec<String>), String>)
    ensures
        match key_parts(*e) {
            Some((root, segments)) => r matches Ok((rr, rs)) && root_view(rr) == root && rs@.map_values(
                |s: String| s@,
            ) == segments,
            None => r matches Err(msg) && msg@ == key_shape_error(),
        },
{
    match key_walk(e) {
        Some(parts) => Ok(parts),
        None => Err("must be a dotted identifier path".to_owned()),
    }
}

/// The entity root of a value expression (see [`entity_root`]).
fn entity_root_of(e: &ExprShape) -> (r: Option<Option<ChainRoot>>)
    ensures
        match entity_root(*e) {
            Some(None) => r == Some(None::<ChainRoot>),
            Some(Some(root)) => r matches Some(Some(rr)) && root_view(rr) == root,
            None => r is None,
        },
    decreases e,
{
    match e {
        ExprShape::Literal { .. } => Some(None),
        ExprShape::Identifier { name, .. } => Some(Some(ChainRoot::Ident(name.clone()))),
        ExprShape::This { .. } => Some(Some(ChainRoot::This)),
        ExprShape::ImportMeta { .. } => Some(Some(ChainRoot::ImportMeta)),
        ExprShape::StaticMember { object, .. } => entity_root_of(object),
        _ => None,
    }
}

/// The end of the node at the bottom of a member chain.
fn root_end_of(e: &ExprShape) -> (r: u32)
    ensures
        r == root_end(*e),
    decreases e,
{
    match e {
        ExprShape::StaticMember { object, .. } => root_end_of(object),
        ExprShape::ComputedMember { object, .. } => root_end_of(object),
        ExprShape::Identifier { end, .. } => *end,
        ExprShape::This { end, .. } => *end,
        ExprShape::ImportMeta { end, .. } => *end,
        ExprShape::Literal { end, .. } => *end,
        ExprShape::Unary { end, .. } => *end,
        ExprShape::Other { end, .. } => *end,
    }
}

/// The span of an expression.
fn span_of(e: &ExprShape) -> (r: (u32, u32))
    ensures
        r == (shape_start(*e), shape_end(*e)),
{
    match e {
        ExprShape::Identifier { start, end, .. } => (*start, *end),
        ExprShape::This { start, end } => (*start, *end),
        ExprShape::ImportMeta { start, end } => (*start, *end),
        ExprShape::StaticMember { start, end, .. } => (*start, *end),
        ExprShape::ComputedMember { start, end, .. } => (*start, *end),
        ExprShape::Literal { start, end, .. } => (*start, *end),
        ExprShape::Unary { start, end, .. } => (*start, *end),
        ExprShape::Other { start, end } => (*start, *end),
    }
}

/// The root end of a chain lies inside the chain's own span.
proof fn lemma_root_end_inside(e: ExprShape, bytes: Seq<u8>)
    requires
        spans_ok(e, bytes),
    ensures
        root_end(e) <= shape_end(e),
        vstd::utf8::is_char_boundary(bytes, root_end(e) as int),
    decreases e,
{
    match e {
        ExprShape::StaticMember { object, .. } => lemma_root_end_inside(*object, bytes),
        ExprShape::ComputedMember { object, .. } => lemma_root_end_inside(*object, bytes),
        _ => {},
    }
}

/// The characters of `text` between two byte offsets on character
/// boundaries.
pub(crate) fn slice_text(text: &str, start: u32, end: u32) -> (r: String)
    requires
        start <= end <= vstd::utf8::encode_utf8(text@).len(),
        vstd::utf8::is_char_boundary(vstd::utf8::encode_utf8(text@), start as int),
        vstd::utf8::is_char_boundary(vstd::utf8::encode_utf8(text@), end as int),
    ensures
        r@ == span_text(text@, start as int, end as int),
{
    let bytes = text.as_bytes();
    proof {
        vstd::utf8::encode_utf8_valid_utf8(text@);
        crate::utf8_lemmas::lemma_valid_subrange(
            vstd::utf8::encode_utf8(text@),
            start as int,
            end as int,
        );
    }
    let sub = vstd::slice::slice_to_vec(
        vstd::slice::slice_subrange(bytes, start as usize, end as usize),
    );
    crate::unicode::string_from_utf8(sub).unwrap()
}

/// Accept only the two splice-safe value shapes — a primitive literal
/// (or negated number), or an entity chain rooted at an identifier, `this`
/// or `import.meta` — and describe the splice.
pub fn value_from_shape(text: &str, e: &ExprShape) -> (r: Result<DefineValue, String>)
    requires
        spans_ok(*e, vstd::utf8::encode_utf8(text@)),
    ensures
        r is Ok <==> value_accepted(*e),
        r matches Ok(v) ==> value_made(text@, *e, v),
        r matches Err(msg) ==> msg@ == value_shape_error(),
{
    let (start, end) = span_of(e);
    let negative = match e {
        ExprShape::Unary { negation, argument, .. } => *negation && match &**argument {
            ExprShape::Literal { kind: LiteralKind::Numeric, .. } => true,
            _ => false,
        },
        _ => false,
    };
    if negative {
        return Ok(
            DefineValue {
                text: slice_text(text, start, end),
                numeric: true,
                negative: true,
                string: false,
                root: None,
                dotted: false,
                assignable: false,
                unary: true,
            },
        );
    }
    let root = match entity_root_of(e) {
        Some(root) => root,
        None => {
            return Err("must be a primitive literal or an entity name".to_owned());
        },
    };
    let dotted = match e {
        ExprShape::StaticMember { .. } => true,
        ExprShape::ComputedMember { .. } => true,
        _ => false,
    };
    if root.is_none() && dotted {
        return Err("must be a primitive literal or an entity name".to_owned());
    }
    let numeric = match e {
        ExprShape::Literal { kind: LiteralKind::Numeric, .. } => true,
        _ => false,
    };
    let string = match e {
        ExprShape::Literal { kind: LiteralKind::Str, .. } => true,
        _ => false,
    };
    let is_ident = match &root {
        Some(ChainRoot::Ident(_)) => true,
        _ => false,
    };
    let assignable = root.is_some() && (is_ident || dotted);
    let undefined = "undefined".to_owned();
    let is_undefined = match &root {
        Some(ChainRoot::Ident(name)) => name.eq(&undefined),
        _ => false,
    };
    if is_undefined {
        let text = if dotted {
            let from = root_end_of(e);
            proof {
                lemma_root_end_inside(*e, vstd::utf8::encode_utf8(text@));
            }
            "(void 0)".to_owned().concat(slice_text(text, from, end).as_str())
        } else {
            "void 0".to_owned()
        };
        return Ok(
            DefineValue {
                text,
                numeric: false,
                negative: false,
                string: false,
                root: None,
                dotted,
                assignable: dotted,
                unary: !dotted,
            },
        );
    }
    Ok(
        DefineValue {
            text: slice_text(text, start, end),
            numeric,
            negative: false,
            string,
            root,
            dotted,
            assignable,
            unary: false,
        },
    )
}

/// Whether `c` ends a line.
pub open spec fn is_line_break(c: char) -> bool {
    c == '\n' || c == '\r' || (c as u32) == 0x2028 || (c as u32) == 0x2029
}

/// Where the line holding position `k` ends: the first line break at or
/// after `k`, or the end.
pub open spec fn line_end(s: Seq<char>, k: int) -> int
    decreases s.len() - k,
{
    if k < 0 || k >= s.len() || is_line_break(s[k]) {
        if k < 0 { 0 } else if k > s.len() { s.len() as int } else { k }
    } else {
        line_end(s, k + 1)
    }
}

/// Where a block comment whose body starts at `k` ends (just after its
/// `*/`), if it is closed.
pub open spec fn block_end(s: Seq<char>, k: int) -> Option<int>
    decreases s.len() - k,
{
    if k < 0 || k + 1 >= s.len() {
        None
    } else if s[k] == '*' && s[k + 1] == '/' {
        Some(k + 2)
    } else {
        block_end(s, k + 1)
    }
}

/// Whether the characters from `i` on are only whitespace, line breaks and
/// comments — nothing the parser would read as a token.
pub open spec fn only_trivia(s: Seq<char>, i: int) -> bool
    decreases s.len() - i,
{
    if i < 0 || i >= s.len() {
        true
    } else if crate::haystack::is_js_space(s[i] as u32) {
        only_trivia(s, i + 1)
    } else if s[i] == '/' && i + 1 < s.len() && s[i + 1] == '/' {
        let e = line_end(s, i + 2);
        if i < e <= s.len() {
            only_trivia(s, e)
        } else {
            false
        }
    } else if s[i] == '/' && i + 1 < s.len() && s[i + 1] == '*' {
        match block_end(s, i + 2) {
            Some(e) => if i < e <= s.len() {
                only_trivia(s, e)
            } else {
                false
            },
            None => false,
        }
    } else {
        false
    }
}

/// Whether an expression ending at byte `end` of `text` is all of it: only
/// trivia follows.
pub open spec fn ends_the_text(text: Seq<char>, end: u32) -> bool {
    only_trivia(text, crate::transcode::chars_before(text, end as int) as int)
}

/// `line_end` stays inside the sequence and past its start.
proof fn lemma_line_end(s: Seq<char>, k: int)
    requires
        0 <= k <= s.len(),
    ensures
        k <= line_end(s, k) <= s.len(),
    decreases s.len() - k,
{
    if k < s.len() && !is_line_break(s[k]) {
        lemma_line_end(s, k + 1);
    }
}

/// `block_end` lands past the comment's start, inside the sequence.
proof fn lemma_block_end(s: Seq<char>, k: int)
    requires
        0 <= k,
    ensures
        block_end(s, k) matches Some(e) ==> k + 2 <= e <= s.len(),
    decreases s.len() - k,
{
    if k + 1 < s.len() && !(s[k] == '*' && s[k + 1] == '/') {
        lemma_block_end(s, k + 1);
    }
}

/// Whether the characters from `i` on are only trivia (see
/// [`only_trivia`]).
fn trivia_from(s: &[char], i: usize) -> (r: bool)
    requires
        i <= s@.len(),
    ensures
        r == only_trivia(s@, i as int),
{
    let len = s.len();
    let mut at = i;
    while at < len
        invariant
            len == s@.len(),
            i <= at <= len,
            only_trivia(s@, i as int) == only_trivia(s@, at as int),
        decreases len - at,
    {
        let c = s[at];
        let ghost here = at as int;
        if crate::haystack::is_js_whitespace(c as u32) {
            proof {
                assert(only_trivia(s@, here) == only_trivia(s@, here + 1));
            }
            at += 1;
        } else if c == '/' && at + 1 < len && s[at + 1] == '/' {
            let mut k = at + 2;
            while k < len && !(s[k] == '\n' || s[k] == '\r' || s[k] as u32 == 0x2028 || s[k] as u32 == 0x2029)
                invariant
                    len == s@.len(),
                    at + 2 <= k <= len,
                    line_end(s@, at + 2) == line_end(s@, k as int),
                decreases len - k,
            {
                k += 1;
            }
            proof {
                lemma_line_end(s@, at + 2);
                assert(line_end(s@, k as int) == k);
                assert(only_trivia(s@, here) == only_trivia(s@, k as int));
            }
            at = k;
        } else if c == '/' && at + 1 < len && s[at + 1] == '*' {
            let mut k = at + 2;
            let mut closed = false;
            while len - k >= 2
                invariant_except_break
                    !closed,
                    block_end(s@, at + 2) == block_end(s@, k as int),
                invariant
                    len == s@.len(),
                    at + 2 <= k <= len,
                ensures
                    closed ==> k + 2 <= len && block_end(s@, at + 2) == Some(k + 2),
                    !closed ==> block_end(s@, at + 2) is None,
                decreases len - k,
            {
                if s[k] == '*' && s[k + 1] == '/' {
                    closed = true;
                    break;
                }
                k += 1;
            }
            proof {
                lemma_block_end(s@, at + 2);
            }
            if !closed {
                return false;
            }
            proof {
                assert(only_trivia(s@, here) == only_trivia(s@, k + 2));
            }
            at = k + 2;
        } else {
            return false;
        }
    }
    true
}

/// Whether only trivia follows byte `end` of `text` (see [`ends_the_text`]).
fn text_ends_at(text: &str, end: u32) -> (r: bool)
    ensures
        r == ends_the_text(text@, end),
{
    let (chars, offsets) = crate::chars::chars_with_offsets(text);
    let ghost s = text@;
    let bound = end as usize;
    let mut k: usize = 0;
    proof {
        assert(s.take(0) =~= Seq::<char>::empty());
    }
    while k < chars.len() && offsets[k + 1] <= bound
        invariant
            chars@ == s,
            offsets@.len() == s.len() + 1,
            forall|i: int| 0 <= i <= s.len() ==> #[trigger] offsets@[i] == vstd::utf8::encode_utf8(s.take(i)).len(),
            bound == end,
            k <= s.len(),
            offsets@[k as int] <= bound,
        decreases s.len() - k,
    {
        k += 1;
    }
    proof {
        crate::transcode::lemma_chars_before(s, end as int, k as int);
    }
    trivia_from(chars.as_slice(), k)
}

/// What the oxc expression parser makes of `text` (module JavaScript), as
/// an expression shape.
pub uninterp spec fn parsed_expression(text: Seq<char>) -> Option<ExprShape>;

/// The Unicode `White_Space` property, the whitespace `str::trim` removes.
pub open spec fn white_space(c: char) -> bool {
    let v = c as u32;
    ||| 0x09 <= v <= 0x0D
    ||| v == 0x20 || v == 0x85 || v == 0xA0 || v == 0x1680
    ||| 0x2000 <= v <= 0x200A
    ||| v == 0x2028 || v == 0x2029 || v == 0x202F || v == 0x205F || v == 0x3000
}

/// `text` without its leading whitespace.
pub open spec fn trim_start(text: Seq<char>) -> Seq<char>
    decreases text.len(),
{
    if text.len() > 0 && white_space(text[0]) {
        trim_start(text.drop_first())
    } else {
        text
    }
}

/// `text` without its trailing whitespace.
pub open spec fn trim_end(text: Seq<char>) -> Seq<char>
    decreases text.len(),
{
    if text.len() > 0 && white_space(text.last()) {
        trim_end(text.drop_last())
    } else {
        text
    }
}

/// What `str::trim` leaves of `text`: no leading and no trailing
/// whitespace.
pub open spec fn trimmed(text: Seq<char>) -> Seq<char> {
    trim_end(trim_start(text))
}

/// What `{:?}` writes for the string `text`.
pub uninterp spec fn debug_quoted(text: Seq<char>) -> Seq<char>;

#[verifier::external_type_specification]
#[verifier::external_body]
pub struct ExExpression<'a>(oxc_ast::ast::Expression<'a>);

/// `oxc_parser::Parser::parse_expression` over `text` as module
/// JavaScript, with the expression converted to its shape. Claimed here:
/// the result depends on the text alone (the named [`parsed_expression`]),
/// and every span of a parsed expression lies in the text on character
/// boundaries, a member's span covering its object's — oxc spans are byte
/// offsets of tokens in the source. Which texts parse, and to what, is
/// left to the name.
#[verifier::external_body]
fn parse_expression(text: &str) -> (r: Option<ExprShape>)
    ensures
        r == parsed_expression(text@),
        r matches Some(e) ==> spans_ok(e, vstd::utf8::encode_utf8(text@)),
{
    let allocator = oxc_allocator::Allocator::default();
    let source_type = oxc_span::SourceType::mjs().with_module(true);
    match oxc_parser::Parser::new(&allocator, text, source_type).parse_expression() {
        Ok(expression) => Some(shape_of(&expression)),
        Err(_) => None,
    }
}

/// The shape of an oxc expression: identifiers, `this`, `import.meta` and
/// static members keep their parts; the rest is converted by
/// [`compound_shape`]. One arm per `Expression` variant, fields moved.
#[verifier::external_body]
fn shape_of(e: &Expression<'_>) -> ExprShape {
    let (start, end) = (e.span().start, e.span().end);
    match e {
        Expression::Identifier(r) => ExprShape::Identifier { name: r.name.as_str().to_owned(), start, end },
        Expression::ThisExpression(_) => ExprShape::This { start, end },
        Expression::ImportMeta(_) => ExprShape::ImportMeta { start, end },
        Expression::StaticMemberExpression(m) => ExprShape::StaticMember { object: Box::new(shape_of(&m.object)), property: m.property.name.as_str().to_owned(), start, end },
        other => compound_shape(other, start, end),
    }
}

/// The shape of a computed member or unary oxc expression, keeping their
/// parts; the rest is converted by [`leaf_shape`]. One arm per variant.
#[verifier::external_body]
fn compound_shape(e: &Expression<'_>, start: u32, end: u32) -> ExprShape {
    match e {
        Expression::ComputedMemberExpression(m) => ExprShape::ComputedMember { object: Box::new(shape_of(&m.object)), key: string_value(&m.expression), start, end },
        Expression::UnaryExpression(u) => ExprShape::Unary { negation: matches!(u.operator, UnaryOperator::UnaryNegation), argument: Box::new(shape_of(&u.argument)), start, end },
        other => leaf_shape(other, start, end),
    }
}

/// The shape of a literal or any other oxc expression, one arm per
/// `Expression` variant.
#[verifier::external_body]
fn leaf_shape(e: &Expression<'_>, start: u32, end: u32) -> ExprShape {
    match e {
        Expression::BooleanLiteral(_) => ExprShape::Literal { kind: LiteralKind::Boolean, start, end },
        Expression::NullLiteral(_) => ExprShape::Literal { kind: LiteralKind::Null, start, end },
        Expression::StringLiteral(_) => ExprShape::Literal { kind: LiteralKind::Str, start, end },
        Expression::BigIntLiteral(_) => ExprShape::Literal { kind: LiteralKind::BigInt, start, end },
        Expression::NumericLiteral(_) => ExprShape::Literal { kind: LiteralKind::Numeric, start, end },
        _ => ExprShape::Other { start, end },
    }
}

/// The decoded value of an oxc string literal expression, `None` for any
/// other expression.
#[verifier::external_body]
fn string_value(e: &Expression<'_>) -> Option<String> {
    match e {
        Expression::StringLiteral(literal) => Some(literal.value.as_str().to_owned()),
        _ => None,
    }
}

/// `str::trim`: per its documentation, the text without leading and
/// trailing whitespace, whitespace being the characters with the Unicode
/// `White_Space` property ([`white_space`]).
#[verifier::external_body]
fn trim_text(text: &str) -> (r: &str)
    ensures
        r@ == trimmed(text@),
{
    text.trim()
}

/// `{:?}` on a string: the quoted, escaped spelling. Claimed here only as
/// the named [`debug_quoted`].
#[verifier::external_body]
fn debug_text(text: &str) -> (r: String)
    ensures
        r@ == debug_quoted(text@),
{
    format!("{text:?}")
}

/// Parse one key as a member expression — the whole key, only trivia may
/// follow — and split it into root and segments (`a.b["c!"]` → `a`,
/// [`b`, `c!`]).
pub fn parse_key(key: &str) -> (r: Result<(ChainRoot, Vec<String>), String>)
    ensures
        match parsed_expression(key@) {
            Some(e) => if ends_the_text(key@, shape_end(e)) {
                match key_parts(e) {
                    Some((root, segments)) => r matches Ok((rr, rs)) && root_view(rr) == root
                        && rs@.map_values(|s: String| s@) == segments,
                    None => r matches Err(msg) && msg@ == key_shape_error(),
                }
            } else {
                r matches Err(msg) && msg@ == key_shape_error()
            },
            None => r matches Err(msg) && msg@ == key_shape_error(),
        },
{
    match parse_expression(key) {
        Some(e) => {
            let (_, end) = span_of(&e);
            if !text_ends_at(key, end) {
                return Err("must be a dotted identifier path".to_owned());
            }
            key_from_shape(&e)
        },
        None => Err("must be a dotted identifier path".to_owned()),
    }
}

/// Parse the trimmed value as one expression — the whole value, only
/// trivia may follow — and accept only the splice-safe shapes (see
/// [`value_from_shape`]).
pub fn parse_value(value: &str) -> (r: Result<DefineValue, String>)
    ensures
        match parsed_expression(trimmed(value@)) {
            Some(e) => {
                &&& r is Ok <==> (ends_the_text(trimmed(value@), shape_end(e)) && value_accepted(e))
                &&& r matches Ok(v) ==> value_made(trimmed(value@), e, v)
                &&& r matches Err(msg) ==> msg@ == value_shape_error()
            },
            None => r matches Err(msg) && msg@ == value_shape_error(),
        },
{
    let text = trim_text(value);
    match parse_expression(text) {
        Some(e) => {
            let (_, end) = span_of(&e);
            if !text_ends_at(text, end) {
                return Err("must be a primitive literal or an entity name".to_owned());
            }
            value_from_shape(text, &e)
        },
        None => Err("must be a primitive literal or an entity name".to_owned()),
    }
}

/// Whether `order` lists the entries with their keys increasing in
/// code-point order (given distinct keys, every entry exactly once).
pub open spec fn key_sorted_order(entries: Seq<(String, String)>, order: Seq<usize>) -> bool {
    &&& order.len() == entries.len()
    &&& forall|i: int| 0 <= i < order.len() ==> #[trigger] order[i] < entries.len()
    &&& strictly_sorted(order.map_values(|j: usize| entries[j as int].0@))
}

/// The order entries are registered in: by key, whatever order they come
/// in.
pub fn key_order(entries: &Vec<(String, String)>) -> (order: Vec<usize>)
    requires
        distinct_keys(entries@),
    ensures
        key_sorted_order(entries@, order@),
{
    let n = entries.len();
    let ghost user = user_keys(entries@);
    let mut key_chars: Vec<Vec<char>> = Vec::new();
    let mut to_sort: Vec<Vec<char>> = Vec::new();
    let mut i: usize = 0;
    while i < n
        invariant
            n == entries@.len(),
            user == user_keys(entries@),
            i <= n,
            views(key_chars@) =~= user.take(i as int),
            views(to_sort@) =~= user.take(i as int),
        decreases n - i,
    {
        let (cs, _) = crate::chars::chars_with_offsets(entries[i].0.as_str());
        let ghost kv = key_chars@;
        let ghost tv = to_sort@;
        to_sort.push(vstd::slice::slice_to_vec(cs.as_slice()));
        key_chars.push(cs);
        proof {
            assert(user[i as int] == entries@[i as int].0@);
            assert(user.take(i + 1) =~= user.take(i as int).push(user[i as int]));
            assert(views(key_chars@) =~= views(kv).push(user[i as int]));
            assert(views(to_sort@) =~= views(tv).push(user[i as int]));
        }
        i += 1;
    }
    proof {
        assert(user.take(n as int) =~= user);
    }
    let sorted = sorted_set(to_sort);
    proof {
        lemma_distinct_user_keys(entries@);
        lemma_sorted_no_duplicates(views(sorted@));
        lemma_same_elements_same_len(views(sorted@), user);
    }
    let mut order: Vec<usize> = Vec::new();
    let mut k: usize = 0;
    while k < sorted.len()
        invariant
            n == entries@.len(),
            user == user_keys(entries@),
            views(key_chars@) == user,
            sorted@.len() == n,
            strictly_sorted(views(sorted@)),
            forall|x: Seq<char>| views(sorted@).contains(x) <==> user.contains(x),
            k <= n,
            order@.len() == k,
            forall|a: int| 0 <= a < k ==> #[trigger] order@[a] < n && entries@[order@[a] as int].0@ == views(sorted@)[a],
        decreases n - k,
    {
        proof {
            assert(views(sorted@).contains(views(sorted@)[k as int]));
            assert(key_chars@.len() == views(key_chars@).len());
        }
        let j = find_chars(&key_chars, sorted[k].as_slice());
        proof {
            assert(user[j as int] == entries@[j as int].0@);
        }
        order.push(j);
        k += 1;
    }
    proof {
        assert(order@.map_values(|j: usize| entries@[j as int].0@) =~= views(sorted@));
    }
    order
}

/// Distinct entries have distinct keys as sequences.
proof fn lemma_distinct_user_keys(entries: Seq<(String, String)>)
    requires
        distinct_keys(entries),
    ensures
        user_keys(entries).no_duplicates(),
{
    let user = user_keys(entries);
    assert forall|a: int, b: int| 0 <= a < user.len() && 0 <= b < user.len() && a != b implies user[a]
        != user[b] by {
        if a < b {
            assert(entries[a].0@ != entries[b].0@);
        } else {
            assert(entries[b].0@ != entries[a].0@);
        }
    }
}

/// The registration order is determined by the keys alone: there is only
/// one way to list distinct-keyed entries by increasing key.
pub proof fn lemma_key_order_unique(entries: Seq<(String, String)>, o1: Seq<usize>, o2: Seq<usize>)
    requires
        distinct_keys(entries),
        key_sorted_order(entries, o1),
        key_sorted_order(entries, o2),
    ensures
        o1 == o2,
{
    let user = user_keys(entries);
    let k1 = o1.map_values(|j: usize| entries[j as int].0@);
    let k2 = o2.map_values(|j: usize| entries[j as int].0@);
    lemma_distinct_user_keys(entries);
    lemma_sorted_no_duplicates(k1);
    lemma_sorted_no_duplicates(k2);
    k1.unique_seq_to_set();
    k2.unique_seq_to_set();
    user.unique_seq_to_set();
    vstd::seq_lib::seq_to_set_is_finite(k1);
    vstd::seq_lib::seq_to_set_is_finite(k2);
    vstd::seq_lib::seq_to_set_is_finite(user);
    assert(k1.to_set().subset_of(user.to_set())) by {
        assert forall|x: Seq<char>| k1.to_set().contains(x) implies user.to_set().contains(x) by {
            let i = choose|i: int| 0 <= i < k1.len() && k1[i] == x;
            assert(user[o1[i] as int] == x);
        }
    }
    assert(k2.to_set().subset_of(user.to_set())) by {
        assert forall|x: Seq<char>| k2.to_set().contains(x) implies user.to_set().contains(x) by {
            let i = choose|i: int| 0 <= i < k2.len() && k2[i] == x;
            assert(user[o2[i] as int] == x);
        }
    }
    vstd::set_lib::lemma_subset_equality(k1.to_set(), user.to_set());
    vstd::set_lib::lemma_subset_equality(k2.to_set(), user.to_set());
    assert forall|x: Seq<char>| k1.contains(x) <==> k2.contains(x) by {
        assert(k1.contains(x) <==> k1.to_set().contains(x));
        assert(k2.contains(x) <==> k2.to_set().contains(x));
    }
    crate::replace::lemma_sorted_same_elements(k1, k2);
    assert forall|i: int| 0 <= i < o1.len() implies o1[i] == o2[i] by {
        assert(k1[i] == k2[i]);
        let a = o1[i] as int;
        let b = o2[i] as int;
        if a < b {
            assert(entries[a].0@ != entries[b].0@);
        } else if b < a {
            assert(entries[b].0@ != entries[a].0@);
        }
    }
    assert(o1 =~= o2);
}

/// Whether an entry's key and value both parse to accepted shapes.
pub open spec fn define_entry_ok(key: Seq<char>, value: Seq<char>) -> bool {
    &&& key_ok(key)
    &&& parsed_expression(trimmed(value)) matches Some(v) && ends_the_text(
        trimmed(value),
        shape_end(v),
    ) && value_accepted(v)
}

/// Whether a key parses, as a whole, to a dotted identifier path.
pub open spec fn key_ok(key: Seq<char>) -> bool {
    parsed_expression(key) matches Some(k) && ends_the_text(key, shape_end(k)) && key_parts(k) is Some
}

/// The error for an entry that does not parse: its key's when the key
/// fails, its value's otherwise.
pub open spec fn define_entry_error(key: Seq<char>, value: Seq<char>) -> Seq<char> {
    if key_ok(key) {
        "invalid define value for "@ + debug_quoted(key) + ": "@ + value_shape_error()
    } else {
        "invalid define key "@ + debug_quoted(key) + ": "@ + key_shape_error()
    }
}

/// Whether registration `i` (key and value) is what the entry makes.
pub open spec fn registered_from(
    keys: Seq<((int, Seq<char>), Seq<Seq<char>>)>,
    values: Seq<DefineValue>,
    i: int,
    entry: (String, String),
) -> bool {
    &&& key_parts(parsed_expression(entry.0@)->0) == Some(keys[i])
    &&& value_made(trimmed(entry.1@), parsed_expression(trimmed(entry.1@))->0, values[i])
}

impl Defines {
    /// Parse and validate every key and value, in key order (so duplicate
    /// handling and the reported error do not depend on the order the
    /// entries come in), and register each; the first entry that does not
    /// parse fails the whole table.
    pub fn new(entries: &Vec<(String, String)>) -> (r: Result<Self, String>)
        requires
            distinct_keys(entries@),
        ensures
            r is Ok <==> forall|i: int|
                0 <= i < entries@.len() ==> define_entry_ok(
                    (#[trigger] entries@[i]).0@,
                    entries@[i].1@,
                ),
            r matches Ok(d) ==> {
                &&& d.well_formed()
                &&& d.key_views().len() == entries@.len()
                &&& exists|o: Seq<usize>|
                    #[trigger] key_sorted_order(entries@, o) && forall|k: int|
                        0 <= k < entries@.len() ==> registered_from(
                            d.key_views(),
                            d.value_list(),
                            k,
                            entries@[#[trigger] o[k] as int],
                        )
            },
            r matches Err(msg) ==> exists|o: Seq<usize>, k: int|
                #![trigger key_sorted_order(entries@, o), o[k]]
                key_sorted_order(entries@, o) && 0 <= k < entries@.len() && !define_entry_ok(
                    entries@[o[k] as int].0@,
                    entries@[o[k] as int].1@,
                ) && (forall|k2: int|
                    0 <= k2 < k ==> define_entry_ok(
                        entries@[#[trigger] o[k2] as int].0@,
                        entries@[o[k2] as int].1@,
                    )) && msg@ == define_entry_error(entries@[o[k] as int].0@, entries@[o[k] as int].1@),
    {
        let order = key_order(entries);
        let n = order.len();
        let mut defines = Defines::empty();
        let mut k: usize = 0;
        while k < n
            invariant
                n == entries@.len(),
                key_sorted_order(entries@, order@),
                k <= n,
                defines.well_formed(),
                defines.key_views().len() == k,
                forall|a: int|
                    0 <= a < k ==> define_entry_ok(
                        entries@[#[trigger] order@[a] as int].0@,
                        entries@[order@[a] as int].1@,
                    ),
                forall|a: int|
                    0 <= a < k ==> registered_from(
                        defines.key_views(),
                        defines.value_list(),
                        a,
                        entries@[#[trigger] order@[a] as int],
                    ),
            decreases n - k,
        {
            let j = order[k];
            proof {
                assert(order@[k as int] < entries@.len());
            }
            let key = entries[j].0.as_str();
            let value = entries[j].1.as_str();
            let (root, segments) = match parse_key(key) {
                Ok(parts) => parts,
                Err(error) => {
                    let message = "invalid define key ".to_owned().concat(debug_text(key).as_str()).concat(
                        ": ",
                    ).concat(error.as_str());
                    proof {
                        assert(!define_entry_ok(entries@[j as int].0@, entries@[j as int].1@));
                        assert(key_sorted_order(entries@, order@));
                    }
                    return Err(message);
                },
            };
            let made = match parse_value(value) {
                Ok(made) => made,
                Err(error) => {
                    let message = "invalid define value for ".to_owned().concat(
                        debug_text(key).as_str(),
                    ).concat(": ").concat(error.as_str());
                    proof {
                        assert(!define_entry_ok(entries@[j as int].0@, entries@[j as int].1@));
                        assert(key_sorted_order(entries@, order@));
                    }
                    return Err(message);
                },
            };
            let ghost before_keys = defines.key_views();
            let ghost before_values = defines.value_list();
            let ghost entry = entries@[j as int];
            let define_key = DefineKey { root, segments };
            proof {
                assert(key_view(define_key).1 =~= define_key.segments@.map_values(|s: String| s@));
            }
            defines.register(define_key, made);
            proof {
                assert forall|a: int|
                    0 <= a < k + 1 implies registered_from(
                        defines.key_views(),
                        defines.value_list(),
                        a,
                        entries@[#[trigger] order@[a] as int],
                    ) by {
                    if a < k {
                        assert(defines.key_views()[a] == before_keys[a]);
                        assert(defines.value_list()[a] == before_values[a]);
                    }
                }
            }
            k += 1;
        }
        proof {
            assert(key_sorted_order(entries@, order@));
            assert forall|i: int|
                0 <= i < entries@.len() implies define_entry_ok(
                    (#[trigger] entries@[i]).0@,
                    entries@[i].1@,
                ) by {
                lemma_order_covers(entries@, order@, i);
            }
        }
        Ok(defines)
    }
}

/// A key order names every entry.
proof fn lemma_order_covers(entries: Seq<(String, String)>, order: Seq<usize>, i: int)
    requires
        distinct_keys(entries),
        key_sorted_order(entries, order),
        0 <= i < entries.len(),
    ensures
        exists|a: int| 0 <= a < order.len() && order[a] == i,
{
    let user = user_keys(entries);
    let ks = order.map_values(|j: usize| entries[j as int].0@);
    lemma_distinct_user_keys(entries);
    lemma_sorted_no_duplicates(ks);
    ks.unique_seq_to_set();
    user.unique_seq_to_set();
    vstd::seq_lib::seq_to_set_is_finite(ks);
    vstd::seq_lib::seq_to_set_is_finite(user);
    assert(ks.to_set().subset_of(user.to_set())) by {
        assert forall|x: Seq<char>| ks.to_set().contains(x) implies user.to_set().contains(x) by {
            let a = choose|a: int| 0 <= a < ks.len() && ks[a] == x;
            assert(user[order[a] as int] == x);
        }
    }
    vstd::set_lib::lemma_subset_equality(ks.to_set(), user.to_set());
    assert(user.to_set().contains(user[i]));
    assert(ks.to_set().contains(user[i]));
    let a = choose|a: int| 0 <= a < ks.len() && ks[a] == user[i];
    let j = order[a] as int;
    if j != i {
        if j < i {
            assert(entries[j].0@ != entries[i].0@);
        } else {
            assert(entries[i].0@ != entries[j].0@);
        }
    }
}

/// A dotted lookup only finds a key that spells the whole chain: the
/// registration it returns has the chain's root and, segment for segment,
/// the chain read from the root outward (the chain lists the outermost
/// property first) — `process.foo.NODE_ENV` never finds
/// `process.env.NODE_ENV`.
pub proof fn lemma_dotted_spells_whole_chain(
    keys: Seq<((int, Seq<char>), Seq<Seq<char>>)>,
    chain: Seq<Seq<char>>,
    root: (int, Seq<char>),
    from: int,
)
    requires
        0 <= from,
    ensures
        first_dotted(keys, chain, root, from) matches Some(i) ==> {
            &&& from <= i < keys.len()
            &&& keys[i].0 == root
            &&& keys[i].1 == chain.reverse()
        },
    decreases keys.len() - from,
{
    if from < keys.len() {
        if dotted_match(keys[from], chain, root) {
            let k = keys[from].1;
            assert(k.len() == chain.len());
            assert forall|j: int| 0 <= j < k.len() implies k[j] == chain.reverse()[j] by {
                let i = k.len() - 1 - j;
                assert(chain[i] == k[k.len() - 1 - i]);
            }
            assert(k =~= chain.reverse());
        } else {
            lemma_dotted_spells_whole_chain(keys, chain, root, from + 1);
        }
    }
}

} // verus!
