//! The tree that a structure block holds, and what the walks of `dtb` mean
//! on it.
//!
//! A tree is written into a block as the flattened device tree format lays
//! it out: a node is a FDT_BEGIN_NODE token, its padded name, its
//! properties, its children and a FDT_END_NODE token. The laws at the end
//! say that on such a block, with a path of full node names, the property
//! enumeration gives exactly the node's own properties and the subnode
//! enumeration exactly its children. The walk state `ws(block, path, 0, 1)`
//! is the state that `Dtb::enum_properties`, `Dtb::enum_subnodes` and
//! `Dtb::get_property` start from on that block and path.

use vstd::prelude::*;
use vstd::utf8::{
    valid_utf8, is_char_boundary, pop_first_scalar, length_of_first_scalar, valid_first_scalar,
};
use crate::fdt_format::{
    align4, be32, cstr, cstr_len, lemma_align4, nul_from, begin_node_malformed, begin_node_rest,
    component_malformed, path_after_component, prop_name_at, prop_name_malformed, PATH_SEPARATOR,
    FDT_BEGIN_NODE, FDT_END_NODE, FDT_PROP,
};
use crate::dtb::{
    blob_readable, header_ok, header_word, strings_block, struct_block, lemma_lookup_iff_enumerated, lookup_walk, Lookup, enter_node, props_names, props_walk, skip_property, subnodes_names, subnodes_walk, Step, WalkState,
};

verus! {

/// A property: where its name lies in the strings block, and its data.
pub struct FdtProp {
    pub name_off: nat,
    pub data: Seq<u8>,
}

/// A node: its name, its properties and its children, in block order.
pub struct FdtNode {
    pub name: Seq<u8>,
    pub props: Seq<FdtProp>,
    pub children: Seq<FdtNode>,
}

/// The big-endian bytes of the 32-bit word `w`.
pub open spec fn word(w: nat) -> Seq<u8> {
    seq![(w / 0x100_0000 % 0x100) as u8, (w / 0x1_0000 % 0x100) as u8, (w / 0x100 % 0x100) as u8, (w % 0x100) as u8]
}

/// `b` followed by zeros up to a multiple of four bytes.
pub open spec fn padded(b: Seq<u8>) -> Seq<u8> {
    b + Seq::new((align4(b.len() as int) - b.len()) as nat, |i: int| 0u8)
}

/// The bytes of a property.
pub open spec fn encode_prop(p: FdtProp) -> Seq<u8> {
    word(FDT_PROP as nat) + word(p.data.len()) + word(p.name_off) + padded(p.data)
}

/// The bytes of a list of properties.
pub open spec fn encode_props(ps: Seq<FdtProp>) -> Seq<u8>
    decreases ps.len(),
{
    if ps.len() == 0 {
        Seq::empty()
    } else {
        encode_prop(ps[0]) + encode_props(ps.subrange(1, ps.len() as int))
    }
}

/// The bytes of a node.
pub open spec fn encode_node(n: FdtNode) -> Seq<u8>
    decreases n,
{
    word(FDT_BEGIN_NODE as nat) + padded(n.name.push(0)) + (encode_props(n.props) + encode_children(
        n.children,
    ) + word(FDT_END_NODE as nat))
}

/// The bytes of a node after its name: properties, children, end token.
pub open spec fn encode_body(n: FdtNode) -> Seq<u8> {
    encode_props(n.props) + encode_children(n.children) + word(FDT_END_NODE as nat)
}

/// The bytes of a list of nodes.
pub open spec fn encode_children(cs: Seq<FdtNode>) -> Seq<u8>
    decreases cs,
{
    if cs.len() == 0 {
        Seq::empty()
    } else {
        encode_node(cs[0]) + encode_children(cs.subrange(1, cs.len() as int))
    }
}

/// Whether `name` is a node name this reader handles as the format asks:
/// printable ASCII without NUL or separator, short enough to pad.
pub open spec fn name_ok(name: Seq<u8>) -> bool {
    &&& name.len() + 4 <= usize::MAX
    &&& forall|i: int| 0 <= i < name.len() ==> 0 < #[trigger] name[i] < 0x80 && name[i] != PATH_SEPARATOR
}

/// Whether a property fits its length word and its name can be read from
/// `strings`.
pub open spec fn prop_ok(p: FdtProp, strings: Seq<u8>) -> bool {
    &&& p.data.len() < 0x1_0000_0000
    &&& p.data.len() + 3 <= usize::MAX
    &&& p.name_off < 0x1_0000_0000
    &&& !prop_name_malformed(word(p.name_off), strings)
}

/// Whether `a` is a proper prefix of `b`.
pub open spec fn proper_prefix(a: Seq<u8>, b: Seq<u8>) -> bool {
    a.len() < b.len() && b.take(a.len() as int) == a
}

/// Whether a node at nesting `d` is well formed: its name and properties
/// are, its nesting fits a word, and its children are, none of them with
/// an empty name or a name that is a proper prefix of a sibling's.
pub open spec fn node_ok(n: FdtNode, strings: Seq<u8>, d: int) -> bool
    decreases n,
{
    &&& 0 <= d
    &&& d + 3 <= usize::MAX
    &&& name_ok(n.name)
    &&& forall|i: int| 0 <= i < n.props.len() ==> prop_ok(#[trigger] n.props[i], strings)
    &&& forall|i: int, j: int|
        0 <= i < n.children.len() && 0 <= j < n.children.len() ==> !proper_prefix(
            #[trigger] n.children[i].name,
            #[trigger] n.children[j].name,
        )
    &&& forall|i: int|
        0 <= i < n.children.len() ==> (#[trigger] n.children[i]).name.len() > 0 && node_ok(
            n.children[i],
            strings,
            d + 1,
        )
}

/// The path `c1/c2/.../ck` of the names `cs`.
pub open spec fn rel_path(cs: Seq<Seq<u8>>) -> Seq<u8>
    decreases cs.len(),
{
    if cs.len() == 0 {
        Seq::empty()
    } else if cs.len() == 1 {
        cs[0]
    } else {
        cs[0] + seq![PATH_SEPARATOR] + rel_path(cs.subrange(1, cs.len() as int))
    }
}

/// The path `/c1/c2/.../ck` from the root.
pub open spec fn abs_path(cs: Seq<Seq<u8>>) -> Seq<u8> {
    seq![PATH_SEPARATOR] + rel_path(cs)
}

/// The index of the first child of `n` named `c`, if any.
pub open spec fn child_named(n: FdtNode, c: Seq<u8>) -> Option<int> {
    if exists|i: int| 0 <= i < n.children.len() && #[trigger] n.children[i].name == c {
        Some(
            choose|i: int|
                0 <= i < n.children.len() && #[trigger] n.children[i].name == c && forall|j: int|
                    0 <= j < i ==> #[trigger] n.children[j].name != c,
        )
    } else {
        None
    }
}

/// The node that the names `cs` lead to from `n`, first child first.
pub open spec fn node_at(n: FdtNode, cs: Seq<Seq<u8>>) -> Option<FdtNode>
    decreases cs.len(),
{
    if cs.len() == 0 {
        Some(n)
    } else {
        match child_named(n, cs[0]) {
            Some(i) => node_at(n.children[i], cs.subrange(1, cs.len() as int)),
            None => None,
        }
    }
}

/// The names of a node's properties, read from `strings`.
pub open spec fn prop_names(ps: Seq<FdtProp>, strings: Seq<u8>) -> Seq<Seq<u8>> {
    ps.map_values(|p: FdtProp| prop_name_at(strings, p.name_off as int))
}

/// The names of a list of nodes.
pub open spec fn node_names(cs: Seq<FdtNode>) -> Seq<Seq<u8>> {
    cs.map_values(|c: FdtNode| c.name)
}

// ---------------------------------------------------------------------------
// Reading the encoding.

pub proof fn lemma_word(w: nat, x: Seq<u8>)
    requires
        w < 0x1_0000_0000,
    ensures
        (word(w) + x).len() == x.len() + 4,
        be32(word(w) + x) == w,
        (word(w) + x).skip(4) == x,
{
    let b = word(w) + x;
    assert(b[0] == (w / 0x100_0000 % 0x100) as u8);
    assert(b[1] == (w / 0x1_0000 % 0x100) as u8);
    assert(b[2] == (w / 0x100 % 0x100) as u8);
    assert(b[3] == (w % 0x100) as u8);
    assert((w / 0x100_0000 % 0x100) * 0x100_0000 + (w / 0x1_0000 % 0x100) * 0x1_0000 + (w / 0x100
        % 0x100) * 0x100 + w % 0x100 == w) by (nonlinear_arith)
        requires
            w < 0x1_0000_0000,
    ;
    assert(b.skip(4) =~= x);
}

/// ASCII bytes are valid UTF-8, and every index in them is a character
/// boundary.
pub proof fn lemma_ascii_utf8(b: Seq<u8>)
    requires
        forall|i: int| 0 <= i < b.len() ==> #[trigger] b[i] < 0x80,
    ensures
        valid_utf8(b),
        forall|k: int| 0 <= k <= b.len() ==> #[trigger] is_char_boundary(b, k),
    decreases b.len(),
{
    if b.len() > 0 {
        assert(valid_first_scalar(b));
        assert(length_of_first_scalar(b) == 1);
        let rest = pop_first_scalar(b);
        assert(rest =~= b.subrange(1, b.len() as int));
        lemma_ascii_utf8(rest);
        assert forall|k: int| 0 <= k <= b.len() implies #[trigger] is_char_boundary(b, k) by {
            if k > 0 {
                assert(is_char_boundary(rest, k - 1));
            }
        }
    }
}

proof fn lemma_nul_at(s: Seq<u8>, i: int, n: int)
    requires
        0 <= i <= n < s.len(),
        s[n] == 0,
        forall|j: int| i <= j < n ==> s[j] != 0,
    ensures
        nul_from(s, i) == n,
    decreases n - i,
{
    if i < n {
        lemma_nul_at(s, i + 1, n);
    }
}

/// Reading the padded name at the start of `padded(name.push(0)) + x`.
pub proof fn lemma_name_field(name: Seq<u8>, x: Seq<u8>)
    requires
        name_ok(name),
    ensures
        cstr_len(padded(name.push(0)) + x) == name.len(),
        cstr(padded(name.push(0)) + x) == name,
        begin_node_rest(padded(name.push(0)) + x) == x,
        !begin_node_malformed(padded(name.push(0)) + x),
        padded(name.push(0)).len() == align4(name.len() + 1int),
{
    let r = padded(name.push(0)) + x;
    lemma_align4(name.len() + 1int);
    lemma_nul_at(r, 0, name.len() as int);
    assert(cstr(r) =~= name);
    assert(r.skip(align4(name.len() + 1int)) =~= x);
    lemma_ascii_utf8(name);
}

/// Skipping a property whose bytes start `r` after its token.
pub proof fn lemma_prop_field(p: FdtProp, x: Seq<u8>, strings: Seq<u8>)
    requires
        prop_ok(p, strings),
    ensures
        ({
            let r = word(p.data.len()) + word(p.name_off) + padded(p.data) + x;
            &&& r.len() >= 8
            &&& be32(r) == p.data.len()
            &&& r.skip(4) == word(p.name_off) + padded(p.data) + x
            &&& be32(r.skip(4)) == p.name_off
            &&& r.skip(8) == padded(p.data) + x
            &&& align4(p.data.len() as int) <= r.len() - 8
            &&& r.skip(8).skip(align4(p.data.len() as int)) == x
            &&& r.skip(8).take(p.data.len() as int) == p.data
            &&& !prop_name_malformed(r.skip(4), strings)
            &&& prop_name_at(strings, be32(r.skip(4))) == prop_name_at(strings, p.name_off as int)
        }),
{
    let r = word(p.data.len()) + word(p.name_off) + padded(p.data) + x;
    lemma_align4(p.data.len() as int);
    lemma_word(p.data.len(), word(p.name_off) + padded(p.data) + x);
    assert(r =~= word(p.data.len()) + (word(p.name_off) + padded(p.data) + x));
    lemma_word(p.name_off, padded(p.data) + x);
    assert(r.skip(4) =~= word(p.name_off) + (padded(p.data) + x));
    assert(r.skip(8) =~= padded(p.data) + x);
    assert(r.skip(8).skip(align4(p.data.len() as int)) =~= x);
    assert(r.skip(8).take(p.data.len() as int) =~= p.data);
    lemma_word(p.name_off, Seq::empty());
    assert(word(p.name_off) + Seq::<u8>::empty() =~= word(p.name_off));
    assert(be32(word(p.name_off)) == be32(r.skip(4)));
}

// ---------------------------------------------------------------------------
// Quiet steps: steps of a walk that give nothing and do not stop it.

/// The state after one step that neither enumeration ends or yields on:
/// entering a node that is not yielded, leaving a node below the level
/// looked on, or skipping a property.
pub open spec fn quiet_step(s: WalkState) -> Option<WalkState> {
    if s.rest.len() < 4 {
        None
    } else {
        let token = be32(s.rest);
        let r = s.rest.skip(4);
        if token == FDT_BEGIN_NODE {
            if s.path.len() == 0 && s.looking == s.nesting + 1 {
                None
            } else {
                enter_node(r, s.path, s.nesting, s.looking)
            }
        } else if token == FDT_END_NODE {
            if s.nesting == 0 || s.nesting - 1 < s.looking - 1 {
                None
            } else {
                Some(WalkState { rest: r, path: s.path, nesting: s.nesting - 1, looking: s.looking })
            }
        } else if token == FDT_PROP {
            match skip_property(r) {
                Some(next) => Some(WalkState { rest: next, ..s }),
                None => None,
            }
        } else {
            None
        }
    }
}

/// Whether `k` quiet steps lead from `s` to `t`; where `strict`, the path
/// is not used up before any of them.
pub open spec fn reaches(s: WalkState, t: WalkState, k: nat, strict: bool) -> bool
    decreases k,
{
    if k == 0 {
        s == t
    } else {
        match quiet_step(s) {
            Some(u) => (strict ==> s.path.len() > 0) && reaches(u, t, (k - 1) as nat, strict),
            None => false,
        }
    }
}

/// Quiet steps change neither enumeration's outcome (the property
/// enumeration's only while the path is not used up).
pub proof fn lemma_reaches_walks(s: WalkState, t: WalkState, k: nat, strict: bool, strings: Seq<u8>)
    requires
        reaches(s, t, k, strict),
    ensures
        subnodes_walk(s) == subnodes_walk(t),
        strict ==> props_walk(s, strings) == props_walk(t, strings),
    decreases k,
{
    if k > 0 {
        let u = quiet_step(s).unwrap();
        lemma_reaches_walks(u, t, (k - 1) as nat, strict, strings);
    }
}

pub proof fn lemma_reaches_trans(s: WalkState, t: WalkState, u: WalkState, k1: nat, k2: nat, strict: bool)
    requires
        reaches(s, t, k1, strict),
        reaches(t, u, k2, strict),
    ensures
        reaches(s, u, k1 + k2, strict),
    decreases k1,
{
    if k1 > 0 {
        let v = quiet_step(s).unwrap();
        lemma_reaches_trans(v, t, u, (k1 - 1) as nat, k2, strict);
        assert((k1 + k2 - 1) as nat == (k1 - 1) as nat + k2);
    }
}

/// One quiet step is a path of length one.
proof fn lemma_reaches_one(s: WalkState, t: WalkState, strict: bool)
    requires
        quiet_step(s) == Some(t),
        strict ==> s.path.len() > 0,
    ensures
        reaches(s, t, 1, strict),
{
    assert(reaches(t, t, 0, strict));
}

/// A walk state.
pub open spec fn ws(rest: Seq<u8>, path: Seq<u8>, nesting: int, looking: int) -> WalkState {
    WalkState { rest, path, nesting, looking }
}

/// Skipping a list of properties.
#[verifier::spinoff_prover]
pub proof fn lemma_skip_props(
    ps: Seq<FdtProp>,
    x: Seq<u8>,
    path: Seq<u8>,
    d: int,
    l: int,
    strings: Seq<u8>,
    strict: bool,
) -> (k: nat)
    requires
        forall|i: int| 0 <= i < ps.len() ==> prop_ok(#[trigger] ps[i], strings),
        strict ==> path.len() > 0,
    ensures
        reaches(ws(encode_props(ps) + x, path, d, l), ws(x, path, d, l), k, strict),
    decreases ps.len(),
{
    if ps.len() == 0 {
        assert(encode_props(ps) + x =~= x);
        0
    } else {
        let p = ps[0];
        let tail = ps.subrange(1, ps.len() as int);
        let y = encode_props(tail) + x;
        assert(prop_ok(p, strings));
        let body = word(p.data.len()) + word(p.name_off) + padded(p.data) + y;
        lemma_prop_field(p, y, strings);
        lemma_word(FDT_PROP as nat, body);
        assert(encode_props(ps) + x =~= word(FDT_PROP as nat) + body);
        let s = ws(encode_props(ps) + x, path, d, l);
        let t = ws(y, path, d, l);
        assert(skip_property(body) == Some(y));
        assert(quiet_step(s) == Some(t));
        lemma_reaches_one(s, t, strict);
        let k2 = lemma_skip_props(tail, x, path, d, l, strings, strict);
        lemma_reaches_trans(s, t, ws(x, path, d, l), 1, k2, strict);
        1 + k2
    }
}

/// Skipping a node whose name is not matched: either it lies below the
/// level looked on, or on that level with a name that does not match.
#[verifier::spinoff_prover]
pub proof fn lemma_skip_node(
    n: FdtNode,
    x: Seq<u8>,
    path: Seq<u8>,
    d: int,
    l: int,
    strings: Seq<u8>,
    strict: bool,
) -> (k: nat)
    requires
        node_ok(n, strings, d),
        l <= d + 1,
        l == d + 1 ==> path.len() > 0 && !component_malformed(path, n.name) && path_after_component(
            path,
            n.name,
        ) is None,
        strict ==> path.len() > 0,
    ensures
        reaches(ws(encode_node(n) + x, path, d, l), ws(x, path, d, l), k, strict),
    decreases n, 1nat,
{
    let r = padded(n.name.push(0)) + (encode_body(n) + x);
    lemma_name_field(n.name, encode_body(n) + x);
    lemma_word(FDT_BEGIN_NODE as nat, r);
    assert(encode_node(n) + x =~= word(FDT_BEGIN_NODE as nat) + r);
    let s = ws(encode_node(n) + x, path, d, l);
    let t = ws(encode_body(n) + x, path, d + 1, l);
    assert(quiet_step(s) == Some(t));
    lemma_reaches_one(s, t, strict);
    let k2 = lemma_skip_body(n, x, path, d, l, strings, strict);
    lemma_reaches_trans(s, t, ws(x, path, d, l), 1, k2, strict);
    1 + k2
}

/// Skipping the rest of a node that has been entered below the level
/// looked on.
#[verifier::spinoff_prover]
pub proof fn lemma_skip_body(
    n: FdtNode,
    x: Seq<u8>,
    path: Seq<u8>,
    d: int,
    l: int,
    strings: Seq<u8>,
    strict: bool,
) -> (k: nat)
    requires
        node_ok(n, strings, d),
        l <= d + 1,
        strict ==> path.len() > 0,
    ensures
        reaches(ws(encode_body(n) + x, path, d + 1, l), ws(x, path, d, l), k, strict),
    decreases n, 0nat,
{
    let end = word(FDT_END_NODE as nat) + x;
    let cx = encode_children(n.children) + end;
    assert(encode_body(n) + x =~= encode_props(n.props) + cx);
    let s = ws(encode_body(n) + x, path, d + 1, l);
    let t1 = ws(cx, path, d + 1, l);
    let k1 = lemma_skip_props(n.props, cx, path, d + 1, l, strings, strict);
    let t2 = ws(end, path, d + 1, l);
    let k2 = lemma_skip_children(n.children, end, path, d + 1, l, strings, strict);
    lemma_reaches_trans(s, t1, t2, k1, k2, strict);
    lemma_word(FDT_END_NODE as nat, x);
    let t3 = ws(x, path, d, l);
    assert(quiet_step(t2) == Some(t3));
    lemma_reaches_one(t2, t3, strict);
    lemma_reaches_trans(s, t2, t3, k1 + k2, 1, strict);
    k1 + k2 + 1
}

/// Skipping a list of nodes below the level looked on.
#[verifier::spinoff_prover]
pub proof fn lemma_skip_children(
    cs: Seq<FdtNode>,
    x: Seq<u8>,
    path: Seq<u8>,
    d: int,
    l: int,
    strings: Seq<u8>,
    strict: bool,
) -> (k: nat)
    requires
        forall|i: int| 0 <= i < cs.len() ==> node_ok(#[trigger] cs[i], strings, d),
        l <= d,
        strict ==> path.len() > 0,
    ensures
        reaches(ws(encode_children(cs) + x, path, d, l), ws(x, path, d, l), k, strict),
    decreases cs, 2nat,
{
    if cs.len() == 0 {
        assert(encode_children(cs) + x =~= x);
        0
    } else {
        let tail = cs.subrange(1, cs.len() as int);
        let y = encode_children(tail) + x;
        assert(encode_children(cs) + x =~= encode_node(cs[0]) + y);
        assert(node_ok(cs[0], strings, d));
        let k1 = lemma_skip_node(cs[0], y, path, d, l, strings, strict);
        let k2 = lemma_skip_children(tail, x, path, d, l, strings, strict);
        lemma_reaches_trans(ws(encode_children(cs) + x, path, d, l), ws(y, path, d, l), ws(x, path, d, l), k1, k2, strict);
        k1 + k2
    }
}

// ---------------------------------------------------------------------------
// Matching path components.

/// The path of names `cs` starts with the first name, then (if more follow)
/// a separator.
proof fn lemma_rel_path_head(cs: Seq<Seq<u8>>)
    requires
        cs.len() > 0,
    ensures
        rel_path(cs).len() >= cs[0].len(),
        rel_path(cs).take(cs[0].len() as int) == cs[0],
        cs.len() == 1 ==> rel_path(cs) == cs[0],
        cs.len() > 1 ==> rel_path(cs).len() > cs[0].len() && rel_path(cs)[cs[0].len() as int]
            == PATH_SEPARATOR && rel_path(cs).skip(cs[0].len() + 1int) == rel_path(
            cs.subrange(1, cs.len() as int),
        ),
{
    if cs.len() > 1 {
        let c = cs[0];
        let rest = rel_path(cs.subrange(1, cs.len() as int));
        assert((c + seq![PATH_SEPARATOR] + rest).take(c.len() as int) =~= c);
        assert((c + seq![PATH_SEPARATOR] + rest).skip(c.len() + 1int) =~= rest);
    } else {
        assert(cs[0].take(cs[0].len() as int) =~= cs[0]);
    }
}

/// A node named like the first component matches it, and the path goes on
/// with the other components.
#[verifier::spinoff_prover]
pub proof fn lemma_component_matches(cs: Seq<Seq<u8>>)
    requires
        cs.len() > 0,
        name_ok(cs[0]),
        cs[0].len() > 0,
    ensures
        rel_path(cs).len() > 0,
        !component_malformed(rel_path(cs), cs[0]),
        path_after_component(rel_path(cs), cs[0]) == Some(rel_path(cs.subrange(1, cs.len() as int))),
{
    let c = cs[0];
    let p = rel_path(cs);
    lemma_rel_path_head(cs);
    lemma_ascii_utf8(c);
    assert(vstd::math::min(p.len() as int, c.len() as int) == c.len());
    assert(c.take(c.len() as int) =~= c);
    if cs.len() == 1 {
        assert(p.skip(c.len() as int) =~= Seq::<u8>::empty());
        assert(cs.subrange(1, cs.len() as int) =~= Seq::<Seq<u8>>::empty());
    } else {
        assert(p.skip(c.len() as int).skip(1) =~= p.skip(c.len() + 1int));
    }
}

/// A node whose name is neither the first component nor a proper prefix of
/// it, nor has it as a proper prefix, does not match the path.
#[verifier::spinoff_prover]
pub proof fn lemma_component_differs(cs: Seq<Seq<u8>>, name: Seq<u8>)
    requires
        cs.len() > 0,
        name_ok(name),
        name.len() > 0,
        name != cs[0],
        !proper_prefix(name, cs[0]),
        !proper_prefix(cs[0], name),
    ensures
        !component_malformed(rel_path(cs), name),
        path_after_component(rel_path(cs), name) is None,
{
    let c = cs[0];
    let p = rel_path(cs);
    lemma_rel_path_head(cs);
    lemma_ascii_utf8(name);
    let k = vstd::math::min(p.len() as int, name.len() as int);
    if p.take(k) == name.take(k) {
        if name.len() <= c.len() {
            assert(k == name.len());
            assert(name.take(k) =~= name);
            assert(c.take(name.len() as int) =~= p.take(k));
            if name.len() == c.len() {
                assert(c =~= c.take(name.len() as int));
            }
        } else if cs.len() == 1 {
            assert(k == c.len());
            assert(p.take(k) =~= c);
        } else {
            assert(k > c.len());
            assert(p.take(k)[c.len() as int] == p[c.len() as int]);
            assert(name.take(k)[c.len() as int] == name[c.len() as int]);
        }
    }
}

// ---------------------------------------------------------------------------
// Descending along a path.

proof fn lemma_first_named(cs: Seq<FdtNode>, c: Seq<u8>, i: int)
    requires
        0 <= i < cs.len(),
        cs[i].name == c,
    ensures
        exists|j: int|
            0 <= j < cs.len() && #[trigger] cs[j].name == c && forall|m: int|
                0 <= m < j ==> #[trigger] cs[m].name != c,
    decreases i,
{
    if exists|m: int| 0 <= m < i && #[trigger] cs[m].name == c {
        let m = choose|m: int| 0 <= m < i && #[trigger] cs[m].name == c;
        lemma_first_named(cs, c, m);
    } else {
        assert(forall|m: int| 0 <= m < i ==> #[trigger] cs[m].name != c);
    }
}

/// [`child_named`] gives the first child with the name.
pub proof fn lemma_child_named(n: FdtNode, c: Seq<u8>)
    ensures
        child_named(n, c) matches Some(j) ==> {
            &&& 0 <= j < n.children.len()
            &&& n.children[j].name == c
            &&& forall|m: int| 0 <= m < j ==> #[trigger] n.children[m].name != c
        },
{
    if exists|i: int| 0 <= i < n.children.len() && #[trigger] n.children[i].name == c {
        let i = choose|i: int| 0 <= i < n.children.len() && #[trigger] n.children[i].name == c;
        lemma_first_named(n.children, c, i);
    }
}

/// The encoding of a list of nodes splits around its `j`-th node.
#[verifier::spinoff_prover]
pub proof fn lemma_children_split(cs: Seq<FdtNode>, j: int)
    requires
        0 <= j < cs.len(),
    ensures
        encode_children(cs) == encode_children(cs.take(j)) + encode_node(cs[j]) + encode_children(
            cs.skip(j + 1),
        ),
    decreases j,
{
    let tail = cs.subrange(1, cs.len() as int);
    if j == 0 {
        assert(cs.take(0) =~= Seq::<FdtNode>::empty());
        assert(cs.skip(1) =~= tail);
        assert(encode_children(cs.take(0)) =~= Seq::<u8>::empty());
        assert(encode_children(cs) =~= encode_children(cs.take(j)) + encode_node(cs[j]) + encode_children(cs.skip(j + 1)));
    } else {
        lemma_children_split(tail, j - 1);
        assert(tail.take(j - 1) =~= cs.take(j).subrange(1, j));
        assert(tail.skip(j) =~= cs.skip(j + 1));
        assert(cs.take(j)[0] == cs[0]);
        assert(encode_children(cs.take(j)) == encode_node(cs[0]) + encode_children(tail.take(j - 1)));
        assert(encode_children(cs) =~= encode_children(cs.take(j)) + encode_node(cs[j]) + encode_children(cs.skip(j + 1)));
    }
}

/// Skipping siblings that do not match the first component of the path.
#[verifier::spinoff_prover]
pub proof fn lemma_skip_unmatched(
    cs: Seq<FdtNode>,
    x: Seq<u8>,
    names: Seq<Seq<u8>>,
    d: int,
    strings: Seq<u8>,
) -> (k: nat)
    requires
        names.len() > 0,
        names[0].len() > 0,
        forall|i: int| 0 <= i < cs.len() ==> {
            &&& node_ok(#[trigger] cs[i], strings, d)
            &&& cs[i].name.len() > 0
            &&& cs[i].name != names[0]
            &&& !proper_prefix(cs[i].name, names[0])
            &&& !proper_prefix(names[0], cs[i].name)
        },
    ensures
        reaches(
            ws(encode_children(cs) + x, rel_path(names), d, d + 1),
            ws(x, rel_path(names), d, d + 1),
            k,
            true,
        ),
    decreases cs.len(),
{
    let p = rel_path(names);
    if cs.len() == 0 {
        assert(encode_children(cs) + x =~= x);
        0
    } else {
        let tail = cs.subrange(1, cs.len() as int);
        let y = encode_children(tail) + x;
        assert(encode_children(cs) + x =~= encode_node(cs[0]) + y);
        assert(node_ok(cs[0], strings, d));
        lemma_component_differs(names, cs[0].name);
        lemma_rel_path_head(names);
        let k1 = lemma_skip_node_unmatched_path(cs[0], y, names, d, strings);
        let k2 = lemma_skip_unmatched(tail, x, names, d, strings);
        lemma_reaches_trans(ws(encode_children(cs) + x, p, d, d + 1), ws(y, p, d, d + 1), ws(x, p, d, d + 1), k1, k2, true);
        k1 + k2
    }
}

/// Skipping one sibling that does not match the path.
proof fn lemma_skip_node_unmatched_path(
    n: FdtNode,
    x: Seq<u8>,
    names: Seq<Seq<u8>>,
    d: int,
    strings: Seq<u8>,
) -> (k: nat)
    requires
        names.len() > 0,
        rel_path(names).len() > 0,
        node_ok(n, strings, d),
        !component_malformed(rel_path(names), n.name),
        path_after_component(rel_path(names), n.name) is None,
    ensures
        reaches(ws(encode_node(n) + x, rel_path(names), d, d + 1), ws(x, rel_path(names), d, d + 1), k, true),
{
    lemma_skip_node(n, x, rel_path(names), d, d + 1, strings, true)
}

/// Entering a child whose name is the first component of the path.
#[verifier::spinoff_prover]
proof fn lemma_enter_matching(child: FdtNode, after: Seq<u8>, cs: Seq<Seq<u8>>, d: int, strings: Seq<u8>)
    requires
        cs.len() > 0,
        child.name == cs[0],
        child.name.len() > 0,
        node_ok(child, strings, d + 1),
        d + 3 <= usize::MAX,
    ensures
        reaches(
            ws(encode_node(child) + after, rel_path(cs), d + 1, d + 2),
            ws(encode_body(child) + after, rel_path(cs.subrange(1, cs.len() as int)), d + 2, d + 3),
            1,
            true,
        ),
{
    lemma_component_matches(cs);
    let r = padded(child.name.push(0)) + (encode_body(child) + after);
    lemma_name_field(child.name, encode_body(child) + after);
    lemma_word(FDT_BEGIN_NODE as nat, r);
    assert(encode_node(child) + after =~= word(FDT_BEGIN_NODE as nat) + r);
    let s3 = ws(encode_node(child) + after, rel_path(cs), d + 1, d + 2);
    let s4 = ws(encode_body(child) + after, rel_path(cs.subrange(1, cs.len() as int)), d + 2, d + 3);
    assert(quiet_step(s3) == Some(s4));
    lemma_reaches_one(s3, s4, true);
}

/// The siblings before the first child named like the first component do
/// not match it.
#[verifier::spinoff_prover]
proof fn lemma_earlier_siblings(n: FdtNode, cs: Seq<Seq<u8>>, j: int, d: int, strings: Seq<u8>)
    requires
        node_ok(n, strings, d),
        cs.len() > 0,
        0 <= j < n.children.len(),
        n.children[j].name == cs[0],
        forall|m: int| 0 <= m < j ==> #[trigger] n.children[m].name != cs[0],
    ensures
        forall|i: int| 0 <= i < n.children.take(j).len() ==> {
            &&& node_ok(#[trigger] n.children.take(j)[i], strings, d + 1)
            &&& n.children.take(j)[i].name.len() > 0
            &&& n.children.take(j)[i].name != cs[0]
            &&& !proper_prefix(n.children.take(j)[i].name, cs[0])
            &&& !proper_prefix(cs[0], n.children.take(j)[i].name)
        },
{
    let ch = n.children;
    assert forall|i: int| 0 <= i < ch.take(j).len() implies {
        &&& node_ok(#[trigger] ch.take(j)[i], strings, d + 1)
        &&& ch.take(j)[i].name.len() > 0
        &&& ch.take(j)[i].name != cs[0]
        &&& !proper_prefix(ch.take(j)[i].name, cs[0])
        &&& !proper_prefix(cs[0], ch.take(j)[i].name)
    } by {
        assert(ch.take(j)[i] == ch[i]);
        assert(node_ok(ch[i], strings, d + 1));
        assert(!proper_prefix(ch[i].name, ch[j].name));
        assert(!proper_prefix(ch[j].name, ch[i].name));
    }
}

/// From just inside node `n`, with the path `cs` still to match, the walk
/// reaches the inside of the node that `cs` leads to, with the path used
/// up, by quiet steps taken while the path is not yet used up. The result
/// gives the number of steps, the nesting of that node and what follows it.
#[verifier::spinoff_prover]
pub proof fn lemma_descend(n: FdtNode, cs: Seq<Seq<u8>>, x: Seq<u8>, d: int, strings: Seq<u8>) -> (res: (
    nat,
    int,
    Seq<u8>,
))
    requires
        node_ok(n, strings, d),
        cs.len() > 0,
        node_at(n, cs) is Some,
    ensures
        node_ok(node_at(n, cs).unwrap(), strings, res.1),
        reaches(
            ws(encode_body(n) + x, rel_path(cs), d + 1, d + 2),
            ws(encode_body(node_at(n, cs).unwrap()) + res.2, Seq::empty(), res.1 + 1, res.1 + 2),
            res.0,
            true,
        ),
    decreases cs.len(),
{
    let c = cs[0];
    lemma_child_named(n, c);
    let j = child_named(n, c).unwrap();
    let ch = n.children;
    let child = ch[j];
    let p = rel_path(cs);
    let rest_cs = cs.subrange(1, cs.len() as int);
    let p2 = rel_path(rest_cs);
    let end = word(FDT_END_NODE as nat) + x;
    let after = encode_children(ch.skip(j + 1)) + end;
    assert(child.name.len() > 0 && node_ok(child, strings, d + 1));
    lemma_component_matches(cs);
    // Skip the properties of `n`.
    let body_rest = encode_children(ch) + end;
    assert(encode_body(n) + x =~= encode_props(n.props) + body_rest);
    let s0 = ws(encode_body(n) + x, p, d + 1, d + 2);
    let s1 = ws(body_rest, p, d + 1, d + 2);
    let k1 = lemma_skip_props(n.props, body_rest, p, d + 1, d + 2, strings, true);
    // Skip the siblings before the child.
    lemma_children_split(ch, j);
    let pre = ch.take(j);
    assert(body_rest =~= encode_children(pre) + (encode_node(child) + after));
    lemma_earlier_siblings(n, cs, j, d, strings);
    let s3 = ws(encode_node(child) + after, p, d + 1, d + 2);
    let k2 = lemma_skip_unmatched(pre, encode_node(child) + after, cs, d + 1, strings);
    lemma_reaches_trans(s0, s1, s3, k1, k2, true);
    // Enter the child.
    let s4 = ws(encode_body(child) + after, p2, d + 2, d + 3);
    lemma_enter_matching(child, after, cs, d, strings);
    lemma_reaches_trans(s0, s3, s4, k1 + k2, 1, true);
    assert(node_at(n, cs) == node_at(child, rest_cs));
    if cs.len() == 1 {
        assert(rest_cs =~= Seq::<Seq<u8>>::empty());
        (k1 + k2 + 1, d + 1, after)
    } else {
        let (k3, m, y) = lemma_descend(child, rest_cs, after, d + 1, strings);
        let s5 = ws(encode_body(node_at(n, cs).unwrap()) + y, Seq::empty(), m + 1, m + 2);
        lemma_reaches_trans(s0, s4, s5, k1 + k2 + 1, k3, true);
        (k1 + k2 + 1 + k3, m, y)
    }
}

// ---------------------------------------------------------------------------
// Enumerating the node reached.

/// Walks with the same outcome give the same property names.
proof fn lemma_props_names_same(s: WalkState, t: WalkState, strings: Seq<u8>)
    requires
        props_walk(s, strings) == props_walk(t, strings),
    ensures
        props_names(s, strings) == props_names(t, strings),
{
}

/// Walks with the same outcome give the same subnode names.
proof fn lemma_subnodes_names_same(s: WalkState, t: WalkState)
    requires
        subnodes_walk(s) == subnodes_walk(t),
    ensures
        subnodes_names(s) == subnodes_names(t),
{
}

/// One step of the property enumeration over a property of the node
/// reached gives its name.
#[verifier::spinoff_prover]
proof fn lemma_props_step(p: FdtProp, y: Seq<u8>, m: int, strings: Seq<u8>)
    requires
        prop_ok(p, strings),
        m >= 0,
    ensures
        props_walk(ws(encode_prop(p) + y, Seq::empty(), m + 1, m + 2), strings) == (
            Step::Yield(prop_name_at(strings, p.name_off as int)),
            ws(y, Seq::empty(), m + 1, m + 2),
        ),
{
    let body = word(p.data.len()) + word(p.name_off) + padded(p.data) + y;
    lemma_prop_field(p, y, strings);
    lemma_word(FDT_PROP as nat, body);
    assert(encode_prop(p) + y =~= word(FDT_PROP as nat) + body);
}

/// Where a node's properties end, the property enumeration with the path
/// used up finishes: at the node's first child or at its end.
#[verifier::spinoff_prover]
proof fn lemma_props_end(z: Seq<u8>, m: int, strings: Seq<u8>)
    requires
        m >= 0,
        z.len() >= 4,
        be32(z) == FDT_BEGIN_NODE || be32(z) == FDT_END_NODE,
    ensures
        props_names(ws(z, Seq::empty(), m + 1, m + 2), strings) == Some(Seq::<Seq<u8>>::empty()),
{
    assert(props_walk(ws(z, Seq::empty(), m + 1, m + 2), strings).0 is Finished);
}

/// Inside a node with the path used up, the property enumeration gives the
/// names of its properties, then finishes at its first child or its end.
#[verifier::spinoff_prover]
proof fn lemma_props_list(ps: Seq<FdtProp>, z: Seq<u8>, m: int, strings: Seq<u8>)
    requires
        forall|i: int| 0 <= i < ps.len() ==> prop_ok(#[trigger] ps[i], strings),
        m >= 0,
        z.len() >= 4,
        be32(z) == FDT_BEGIN_NODE || be32(z) == FDT_END_NODE,
    ensures
        props_names(ws(encode_props(ps) + z, Seq::empty(), m + 1, m + 2), strings) == Some(
            prop_names(ps, strings),
        ),
    decreases ps.len(),
{
    if ps.len() == 0 {
        assert(encode_props(ps) + z =~= z);
        lemma_props_end(z, m, strings);
        assert(prop_names(ps, strings) =~= Seq::<Seq<u8>>::empty());
    } else {
        let p = ps[0];
        let tail = ps.subrange(1, ps.len() as int);
        let y = encode_props(tail) + z;
        assert(prop_ok(p, strings));
        assert(encode_props(ps) + z =~= encode_prop(p) + y);
        lemma_props_step(p, y, m, strings);
        lemma_props_list(tail, z, m, strings);
        let name = prop_name_at(strings, p.name_off as int);
        assert(prop_names(ps, strings) =~= seq![name] + prop_names(tail, strings));
    }
}

/// At a child of the node reached, the subnode enumeration gives its name
/// and moves inside it.
#[verifier::spinoff_prover]
proof fn lemma_subnodes_step(c: FdtNode, rest: Seq<u8>, m: int, strings: Seq<u8>)
    requires
        node_ok(c, strings, m + 1),
        m >= 0,
    ensures
        subnodes_walk(ws(encode_node(c) + rest, Seq::empty(), m + 1, m + 2)) == (
            Step::Yield(c.name),
            ws(encode_body(c) + rest, Seq::empty(), m + 2, m + 2),
        ),
{
    let r = padded(c.name.push(0)) + (encode_body(c) + rest);
    lemma_name_field(c.name, encode_body(c) + rest);
    lemma_word(FDT_BEGIN_NODE as nat, r);
    assert(encode_node(c) + rest =~= word(FDT_BEGIN_NODE as nat) + r);
}

/// At the end of the node reached, the subnode enumeration finishes.
#[verifier::spinoff_prover]
proof fn lemma_subnodes_end(y: Seq<u8>, m: int)
    requires
        m >= 0,
    ensures
        subnodes_names(ws(word(FDT_END_NODE as nat) + y, Seq::empty(), m + 1, m + 2)) == Some(
            Seq::<Seq<u8>>::empty(),
        ),
{
    lemma_word(FDT_END_NODE as nat, y);
    assert(subnodes_walk(ws(word(FDT_END_NODE as nat) + y, Seq::empty(), m + 1, m + 2)).0 is Finished);
}

/// Inside a node with the path used up, the subnode enumeration gives the
/// names of its children and finishes at its end.
#[verifier::spinoff_prover]
proof fn lemma_children_list(cs: Seq<FdtNode>, y: Seq<u8>, m: int, strings: Seq<u8>)
    requires
        forall|i: int| 0 <= i < cs.len() ==> node_ok(#[trigger] cs[i], strings, m + 1),
        m >= 0,
    ensures
        subnodes_names(
            ws(encode_children(cs) + (word(FDT_END_NODE as nat) + y), Seq::empty(), m + 1, m + 2),
        ) == Some(node_names(cs)),
    decreases cs.len(),
{
    let end = word(FDT_END_NODE as nat) + y;
    if cs.len() == 0 {
        assert(encode_children(cs) + end =~= end);
        lemma_subnodes_end(y, m);
        assert(node_names(cs) =~= Seq::<Seq<u8>>::empty());
    } else {
        let c = cs[0];
        let tail = cs.subrange(1, cs.len() as int);
        let rest = encode_children(tail) + end;
        assert(node_ok(c, strings, m + 1));
        assert(encode_children(cs) + end =~= encode_node(c) + rest);
        lemma_subnodes_step(c, rest, m, strings);
        let t = ws(encode_body(c) + rest, Seq::empty(), m + 2, m + 2);
        let u = ws(rest, Seq::empty(), m + 1, m + 2);
        let k = lemma_skip_body(c, rest, Seq::empty(), m + 1, m + 2, strings, false);
        lemma_reaches_walks(t, u, k, false, strings);
        lemma_subnodes_names_same(t, u);
        lemma_children_list(tail, y, m, strings);
        assert(node_names(cs) =~= seq![c.name] + node_names(tail));
    }
}

/// The first step at the root: the root, whose name is empty, matches the
/// leading separator of the path, and the walk goes inside it.
#[verifier::spinoff_prover]
proof fn lemma_enter_root(root: FdtNode, cs: Seq<Seq<u8>>, tail: Seq<u8>, strings: Seq<u8>)
    requires
        node_ok(root, strings, 0),
        root.name.len() == 0,
    ensures
        reaches(
            ws(encode_node(root) + tail, abs_path(cs), 0, 1),
            ws(encode_body(root) + tail, rel_path(cs), 1, 2),
            1,
            true,
        ),
{
    let r = padded(root.name.push(0)) + (encode_body(root) + tail);
    lemma_name_field(root.name, encode_body(root) + tail);
    lemma_word(FDT_BEGIN_NODE as nat, r);
    assert(encode_node(root) + tail =~= word(FDT_BEGIN_NODE as nat) + r);
    let p = abs_path(cs);
    assert(p.take(0) =~= root.name.take(0));
    assert(p.skip(0).skip(1) =~= rel_path(cs));
    assert(p.skip(0) =~= p);
    let s = ws(encode_node(root) + tail, p, 0, 1);
    let t = ws(encode_body(root) + tail, rel_path(cs), 1, 2);
    assert(quiet_step(s) == Some(t));
    lemma_reaches_one(s, t, true);
}

/// From the root, the walk reaches the inside of the node that `cs` leads
/// to, with the path used up, while the path is not yet used up.
#[verifier::spinoff_prover]
proof fn lemma_reach_node(root: FdtNode, cs: Seq<Seq<u8>>, tail: Seq<u8>, strings: Seq<u8>) -> (res: (
    nat,
    int,
    Seq<u8>,
))
    requires
        node_ok(root, strings, 0),
        root.name.len() == 0,
        node_at(root, cs) is Some,
    ensures
        res.1 >= 0,
        node_ok(node_at(root, cs).unwrap(), strings, res.1),
        reaches(
            ws(encode_node(root) + tail, abs_path(cs), 0, 1),
            ws(encode_body(node_at(root, cs).unwrap()) + res.2, Seq::empty(), res.1 + 1, res.1 + 2),
            res.0,
            true,
        ),
{
    lemma_enter_root(root, cs, tail, strings);
    let s = ws(encode_node(root) + tail, abs_path(cs), 0, 1);
    let t = ws(encode_body(root) + tail, rel_path(cs), 1, 2);
    if cs.len() == 0 {
        assert(rel_path(cs) =~= Seq::<u8>::empty());
        (1, 0, tail)
    } else {
        let (k, m, y) = lemma_descend(root, cs, tail, 0, strings);
        let u = ws(encode_body(node_at(root, cs).unwrap()) + y, Seq::empty(), m + 1, m + 2);
        lemma_reaches_trans(s, t, u, 1, k, true);
        (1 + k, m, y)
    }
}

/// What follows a node's properties starts with a FDT_BEGIN_NODE token (its
/// first child) or a FDT_END_NODE token (its end).
#[verifier::spinoff_prover]
proof fn lemma_after_props(cs: Seq<FdtNode>, y: Seq<u8>)
    ensures
        ({
            let z = encode_children(cs) + (word(FDT_END_NODE as nat) + y);
            z.len() >= 4 && (be32(z) == FDT_BEGIN_NODE || be32(z) == FDT_END_NODE)
        }),
{
    let z = encode_children(cs) + (word(FDT_END_NODE as nat) + y);
    if cs.len() > 0 {
        let rest = encode_children(cs.subrange(1, cs.len() as int)) + (word(FDT_END_NODE as nat) + y);
        let r = padded(cs[0].name.push(0)) + (encode_body(cs[0]) + rest);
        lemma_word(FDT_BEGIN_NODE as nat, r);
        assert(encode_children(cs) == encode_node(cs[0]) + encode_children(
            cs.subrange(1, cs.len() as int),
        ));
        assert(encode_node(cs[0]) == word(FDT_BEGIN_NODE as nat) + padded(cs[0].name.push(0))
            + encode_body(cs[0]));
        assert(z =~= word(FDT_BEGIN_NODE as nat) + r);
    } else {
        assert(z =~= word(FDT_END_NODE as nat) + y);
        lemma_word(FDT_END_NODE as nat, y);
    }
}

/// On a block that holds the tree `root`, the property enumeration of the
/// path of full names `cs` gives exactly the names of the own properties of
/// the node that `cs` leads to, in block order (where several children
/// share a name, the first is taken).
#[verifier::spinoff_prover]
pub proof fn lemma_enum_properties_of_tree(
    root: FdtNode,
    cs: Seq<Seq<u8>>,
    tail: Seq<u8>,
    strings: Seq<u8>,
)
    requires
        node_ok(root, strings, 0),
        root.name.len() == 0,
        node_at(root, cs) is Some,
    ensures
        props_names(ws(encode_node(root) + tail, abs_path(cs), 0, 1), strings) == Some(
            prop_names(node_at(root, cs).unwrap().props, strings),
        ),
{
    let (k, m, y) = lemma_reach_node(root, cs, tail, strings);
    let node = node_at(root, cs).unwrap();
    let s = ws(encode_node(root) + tail, abs_path(cs), 0, 1);
    let t = ws(encode_body(node) + y, Seq::empty(), m + 1, m + 2);
    lemma_reaches_walks(s, t, k, true, strings);
    lemma_props_names_same(s, t, strings);
    let z = encode_children(node.children) + (word(FDT_END_NODE as nat) + y);
    assert(encode_body(node) + y =~= encode_props(node.props) + z);
    lemma_after_props(node.children, y);
    lemma_props_list(node.props, z, m, strings);
}

/// On a block that holds the tree `root`, the subnode enumeration of the
/// path of full names `cs` gives exactly the names of the children of the
/// node that `cs` leads to, in block order, and no deeper node.
#[verifier::spinoff_prover]
pub proof fn lemma_enum_subnodes_of_tree(root: FdtNode, cs: Seq<Seq<u8>>, tail: Seq<u8>, strings: Seq<u8>)
    requires
        node_ok(root, strings, 0),
        root.name.len() == 0,
        node_at(root, cs) is Some,
    ensures
        subnodes_names(ws(encode_node(root) + tail, abs_path(cs), 0, 1)) == Some(
            node_names(node_at(root, cs).unwrap().children),
        ),
{
    let (k, m, y) = lemma_reach_node(root, cs, tail, strings);
    let node = node_at(root, cs).unwrap();
    let s = ws(encode_node(root) + tail, abs_path(cs), 0, 1);
    let t = ws(encode_body(node) + y, Seq::empty(), m + 1, m + 2);
    lemma_reaches_walks(s, t, k, true, strings);
    lemma_subnodes_names_same(s, t);
    let end = word(FDT_END_NODE as nat) + y;
    let z = encode_children(node.children) + end;
    assert(encode_body(node) + y =~= encode_props(node.props) + z);
    let u = ws(z, Seq::empty(), m + 1, m + 2);
    let k2 = lemma_skip_props(node.props, z, Seq::empty(), m + 1, m + 2, strings, false);
    lemma_reaches_walks(t, u, k2, false, strings);
    lemma_subnodes_names_same(t, u);
    assert forall|i: int| 0 <= i < node.children.len() implies node_ok(
        #[trigger] node.children[i],
        strings,
        m + 1,
    ) by {
        assert(node_ok(node.children[i], strings, m + 1));
    }
    lemma_children_list(node.children, y, m, strings);
}

/// On a block that holds the tree `root`, `get_property` with the path of
/// full names `cs` finds a property exactly when the node that `cs` leads to
/// has a property of that name, and otherwise reports it absent.
#[verifier::spinoff_prover]
pub proof fn lemma_get_property_of_tree(
    root: FdtNode,
    cs: Seq<Seq<u8>>,
    tail: Seq<u8>,
    strings: Seq<u8>,
    prop: Seq<u8>,
)
    requires
        node_ok(root, strings, 0),
        root.name.len() == 0,
        node_at(root, cs) is Some,
    ensures
        lookup_walk(encode_node(root) + tail, strings, abs_path(cs), 0, 1, prop) is Found
            <==> prop_names(node_at(root, cs).unwrap().props, strings).contains(prop),
        lookup_walk(encode_node(root) + tail, strings, abs_path(cs), 0, 1, prop) is Found
            || lookup_walk(encode_node(root) + tail, strings, abs_path(cs), 0, 1, prop) is Absent,
{
    lemma_enum_properties_of_tree(root, cs, tail, strings);
    lemma_lookup_iff_enumerated(ws(encode_node(root) + tail, abs_path(cs), 0, 1), strings, prop);
}

/// The data of the first of the properties `ps` whose name is `prop`.
pub open spec fn prop_data(ps: Seq<FdtProp>, strings: Seq<u8>, prop: Seq<u8>) -> Option<Seq<u8>>
    decreases ps.len(),
{
    if ps.len() == 0 {
        None
    } else if prop_name_at(strings, ps[0].name_off as int) == prop {
        Some(ps[0].data)
    } else {
        prop_data(ps.subrange(1, ps.len() as int), strings, prop)
    }
}

/// The lookup's outcome for a property found with data `d`, or absent.
pub open spec fn found_or_absent(d: Option<Seq<u8>>) -> Lookup {
    match d {
        Some(data) => Lookup::Found(data),
        None => Lookup::Absent,
    }
}

/// Quiet steps taken while the path is not used up do not change the
/// lookup.
#[verifier::spinoff_prover]
pub proof fn lemma_reaches_lookup(s: WalkState, t: WalkState, k: nat, strings: Seq<u8>, prop: Seq<u8>)
    requires
        reaches(s, t, k, true),
    ensures
        lookup_walk(s.rest, strings, s.path, s.nesting, s.looking, prop) == lookup_walk(
            t.rest,
            strings,
            t.path,
            t.nesting,
            t.looking,
            prop,
        ),
    decreases k,
{
    if k > 0 {
        let u = quiet_step(s).unwrap();
        lemma_reaches_lookup(u, t, (k - 1) as nat, strings, prop);
    }
}

/// At a property of the node reached, the lookup finds it with exactly its
/// data where its name is the one looked for, and goes on after it otherwise.
#[verifier::spinoff_prover]
proof fn lemma_lookup_step(p: FdtProp, y: Seq<u8>, m: int, strings: Seq<u8>, prop: Seq<u8>)
    requires
        prop_ok(p, strings),
        m >= 0,
    ensures
        lookup_walk(encode_prop(p) + y, strings, Seq::empty(), m + 1, m + 2, prop) == if prop_name_at(
            strings,
            p.name_off as int,
        ) == prop {
            Lookup::Found(p.data)
        } else {
            lookup_walk(y, strings, Seq::empty(), m + 1, m + 2, prop)
        },
{
    let body = word(p.data.len()) + word(p.name_off) + padded(p.data) + y;
    lemma_prop_field(p, y, strings);
    lemma_word(FDT_PROP as nat, body);
    assert(encode_prop(p) + y =~= word(FDT_PROP as nat) + body);
}

/// Where a node's properties end, the lookup with the path used up reports
/// the property absent.
#[verifier::spinoff_prover]
proof fn lemma_lookup_end(z: Seq<u8>, m: int, strings: Seq<u8>, prop: Seq<u8>)
    requires
        m >= 0,
        z.len() >= 4,
        be32(z) == FDT_BEGIN_NODE || be32(z) == FDT_END_NODE,
    ensures
        lookup_walk(z, strings, Seq::empty(), m + 1, m + 2, prop) == Lookup::Absent,
{
}

/// Inside a node with the path used up, the lookup gives the data of the
/// node's first property with the name, or absent.
#[verifier::spinoff_prover]
proof fn lemma_lookup_list(ps: Seq<FdtProp>, z: Seq<u8>, m: int, strings: Seq<u8>, prop: Seq<u8>)
    requires
        forall|i: int| 0 <= i < ps.len() ==> prop_ok(#[trigger] ps[i], strings),
        m >= 0,
        z.len() >= 4,
        be32(z) == FDT_BEGIN_NODE || be32(z) == FDT_END_NODE,
    ensures
        lookup_walk(encode_props(ps) + z, strings, Seq::empty(), m + 1, m + 2, prop)
            == found_or_absent(prop_data(ps, strings, prop)),
    decreases ps.len(),
{
    if ps.len() == 0 {
        assert(encode_props(ps) + z =~= z);
        lemma_lookup_end(z, m, strings, prop);
    } else {
        let p = ps[0];
        let tail = ps.subrange(1, ps.len() as int);
        let y = encode_props(tail) + z;
        assert(prop_ok(p, strings));
        assert(encode_props(ps) + z =~= encode_prop(p) + y);
        lemma_lookup_step(p, y, m, strings, prop);
        lemma_lookup_list(tail, z, m, strings, prop);
    }
}

/// On a block that holds the tree `root`, `get_property` with the path of
/// full names `cs` gives exactly the data of the first property named
/// `prop` of the node that `cs` leads to, all of its bytes and no more, and
/// reports it absent where the node has no such property.
#[verifier::spinoff_prover]
pub proof fn lemma_get_property_data_of_tree(
    root: FdtNode,
    cs: Seq<Seq<u8>>,
    tail: Seq<u8>,
    strings: Seq<u8>,
    prop: Seq<u8>,
)
    requires
        node_ok(root, strings, 0),
        root.name.len() == 0,
        node_at(root, cs) is Some,
    ensures
        lookup_walk(encode_node(root) + tail, strings, abs_path(cs), 0, 1, prop) == found_or_absent(
            prop_data(node_at(root, cs).unwrap().props, strings, prop),
        ),
{
    let (k, m, y) = lemma_reach_node(root, cs, tail, strings);
    let node = node_at(root, cs).unwrap();
    let s = ws(encode_node(root) + tail, abs_path(cs), 0, 1);
    let t = ws(encode_body(node) + y, Seq::empty(), m + 1, m + 2);
    lemma_reaches_lookup(s, t, k, strings, prop);
    let z = encode_children(node.children) + (word(FDT_END_NODE as nat) + y);
    assert(encode_body(node) + y =~= encode_props(node.props) + z);
    lemma_after_props(node.children, y);
    lemma_lookup_list(node.props, z, m, strings, prop);
}

/// Whether the names `cs` lead from `n` to no node, with the first missing
/// name neither a proper prefix of a child's name there nor having one as a
/// proper prefix (so it matches no child at all, not even by leaving out a
/// unit address).
pub open spec fn path_misses(n: FdtNode, cs: Seq<Seq<u8>>) -> bool
    decreases cs.len(),
{
    &&& cs.len() > 0
    &&& cs[0].len() > 0
    &&& match child_named(n, cs[0]) {
        Some(i) => path_misses(n.children[i], cs.subrange(1, cs.len() as int)),
        None => forall|j: int|
            0 <= j < n.children.len() ==> !proper_prefix(cs[0], #[trigger] n.children[j].name)
                && !proper_prefix(n.children[j].name, cs[0]),
    }
}

/// From just inside node `n`, with a path that leads nowhere, the walk
/// reaches the end token of the last node that the path matched, with the
/// path not used up.
#[verifier::spinoff_prover]
pub proof fn lemma_descend_missing(n: FdtNode, cs: Seq<Seq<u8>>, x: Seq<u8>, d: int, strings: Seq<u8>) -> (res: (
    nat,
    int,
    Seq<u8>,
    Seq<u8>,
))
    requires
        node_ok(n, strings, d),
        path_misses(n, cs),
    ensures
        res.1 >= 0,
        res.3.len() > 0,
        reaches(
            ws(encode_body(n) + x, rel_path(cs), d + 1, d + 2),
            ws(word(FDT_END_NODE as nat) + res.2, res.3, res.1 + 1, res.1 + 2),
            res.0,
            true,
        ),
    decreases cs.len(),
{
    let c = cs[0];
    lemma_child_named(n, c);
    let ch = n.children;
    let p = rel_path(cs);
    let end = word(FDT_END_NODE as nat) + x;
    lemma_rel_path_head(cs);
    let body_rest = encode_children(ch) + end;
    assert(encode_body(n) + x =~= encode_props(n.props) + body_rest);
    let s0 = ws(encode_body(n) + x, p, d + 1, d + 2);
    let s1 = ws(body_rest, p, d + 1, d + 2);
    let k1 = lemma_skip_props(n.props, body_rest, p, d + 1, d + 2, strings, true);
    match child_named(n, c) {
        None => {
            assert forall|i: int| 0 <= i < ch.len() implies {
                &&& node_ok(#[trigger] ch[i], strings, d + 1)
                &&& ch[i].name.len() > 0
                &&& ch[i].name != cs[0]
                &&& !proper_prefix(ch[i].name, cs[0])
                &&& !proper_prefix(cs[0], ch[i].name)
            } by {
                assert(node_ok(ch[i], strings, d + 1));
            }
            let s2 = ws(end, p, d + 1, d + 2);
            let k2 = lemma_skip_unmatched(ch, end, cs, d + 1, strings);
            lemma_reaches_trans(s0, s1, s2, k1, k2, true);
            (k1 + k2, d, x, p)
        },
        Some(j) => {
            let child = ch[j];
            let rest_cs = cs.subrange(1, cs.len() as int);
            let p2 = rel_path(rest_cs);
            let after = encode_children(ch.skip(j + 1)) + end;
            assert(child.name.len() > 0 && node_ok(child, strings, d + 1));
            lemma_children_split(ch, j);
            let pre = ch.take(j);
            assert(body_rest =~= encode_children(pre) + (encode_node(child) + after));
            lemma_earlier_siblings(n, cs, j, d, strings);
            let s3 = ws(encode_node(child) + after, p, d + 1, d + 2);
            let k2 = lemma_skip_unmatched(pre, encode_node(child) + after, cs, d + 1, strings);
            lemma_reaches_trans(s0, s1, s3, k1, k2, true);
            let s4 = ws(encode_body(child) + after, p2, d + 2, d + 3);
            lemma_enter_matching(child, after, cs, d, strings);
            lemma_reaches_trans(s0, s3, s4, k1 + k2, 1, true);
            let (k3, m, y, q) = lemma_descend_missing(child, rest_cs, after, d + 1, strings);
            let s5 = ws(word(FDT_END_NODE as nat) + y, q, m + 1, m + 2);
            lemma_reaches_trans(s0, s4, s5, k1 + k2 + 1, k3, true);
            (k1 + k2 + 1 + k3, m, y, q)
        },
    }
}

/// On a block that holds the tree `root`, a path of names that leads to no
/// node (see [`path_misses`]) finds no property, and both enumerations of
/// it give nothing.
#[verifier::spinoff_prover]
pub proof fn lemma_missing_node_of_tree(
    root: FdtNode,
    cs: Seq<Seq<u8>>,
    tail: Seq<u8>,
    strings: Seq<u8>,
    prop: Seq<u8>,
)
    requires
        node_ok(root, strings, 0),
        root.name.len() == 0,
        path_misses(root, cs),
    ensures
        lookup_walk(encode_node(root) + tail, strings, abs_path(cs), 0, 1, prop) == Lookup::Absent,
        props_names(ws(encode_node(root) + tail, abs_path(cs), 0, 1), strings) == Some(
            Seq::<Seq<u8>>::empty(),
        ),
        subnodes_names(ws(encode_node(root) + tail, abs_path(cs), 0, 1)) == Some(
            Seq::<Seq<u8>>::empty(),
        ),
{
    lemma_enter_root(root, cs, tail, strings);
    let s = ws(encode_node(root) + tail, abs_path(cs), 0, 1);
    let t = ws(encode_body(root) + tail, rel_path(cs), 1, 2);
    let (k, m, y, q) = lemma_descend_missing(root, cs, tail, 0, strings);
    let u = ws(word(FDT_END_NODE as nat) + y, q, m + 1, m + 2);
    lemma_reaches_trans(s, t, u, 1, k, true);
    lemma_reaches_walks(s, u, 1 + k, true, strings);
    lemma_reaches_lookup(s, u, 1 + k, strings, prop);
    lemma_props_names_same(s, u, strings);
    lemma_subnodes_names_same(s, u);
    lemma_word(FDT_END_NODE as nat, y);
    assert(props_walk(u, strings).0 is Finished);
    assert(subnodes_walk(u).0 is Finished);
}

// ---------------------------------------------------------------------------
// The blob around the blocks.

/// The big-endian bytes of the words `ws`, one after the other.
pub open spec fn words(ws: Seq<nat>) -> Seq<u8>
    decreases ws.len(),
{
    if ws.len() == 0 {
        Seq::empty()
    } else {
        word(ws[0]) + words(ws.subrange(1, ws.len() as int))
    }
}

/// The `i`-th word of `words(ws)` reads back as `ws[i]`.
pub proof fn lemma_words(ws: Seq<nat>, r: Seq<u8>, i: int)
    requires
        0 <= i < ws.len(),
        forall|j: int| 0 <= j < ws.len() ==> #[trigger] ws[j] < 0x1_0000_0000,
    ensures
        (words(ws) + r).len() == 4 * ws.len() + r.len(),
        be32((words(ws) + r).skip(4 * i)) == ws[i],
        (words(ws) + r).skip(4 * ws.len() as int) == r,
    decreases ws.len(),
{
    let tail = ws.subrange(1, ws.len() as int);
    assert(ws[0] < 0x1_0000_0000);
    lemma_word(ws[0], words(tail) + r);
    assert(words(ws) + r =~= word(ws[0]) + (words(tail) + r));
    if ws.len() == 1 {
        assert(words(tail) =~= Seq::<u8>::empty());
        assert((words(ws) + r).skip(4) =~= r);
    } else {
        lemma_words(tail, r, if i == 0 { 0 } else { i - 1 });
        assert((words(ws) + r).skip(4) =~= words(tail) + r);
        assert((words(ws) + r).skip(4 * ws.len() as int) =~= (words(tail) + r).skip(4 * tail.len() as int));
        if i > 0 {
            assert((words(ws) + r).skip(4 * i) =~= (words(tail) + r).skip(4 * (i - 1)));
        }
    }
}

/// A blob laid out as the format asks: the ten header words (with the
/// structure block right after the header and the strings block after it),
/// then the two blocks.
pub open spec fn dtb_blob(
    magic: nat,
    version: nat,
    total: nat,
    rsvmap: nat,
    last_comp: nat,
    boot_cpu: nat,
    st: Seq<u8>,
    strs: Seq<u8>,
) -> Seq<u8> {
    words(seq![magic, total, 40, 40 + st.len(), rsvmap, version, last_comp, boot_cpu, strs.len(), st.len()])
        + st + strs
}

/// `Dtb::from_raw` on such a blob: it accepts the blob exactly when the
/// magic number and the version are right, and then reads back the very
/// structure and strings blocks laid out in it, and its header words.
#[verifier::spinoff_prover]
pub proof fn lemma_blob_layout(
    magic: nat,
    version: nat,
    total: nat,
    rsvmap: nat,
    last_comp: nat,
    boot_cpu: nat,
    st: Seq<u8>,
    strs: Seq<u8>,
)
    requires
        magic < 0x1_0000_0000,
        version < 0x1_0000_0000,
        total < 0x1_0000_0000,
        rsvmap < 0x1_0000_0000,
        last_comp < 0x1_0000_0000,
        boot_cpu < 0x1_0000_0000,
        40 + st.len() + strs.len() < 0x1_0000_0000,
    ensures
        ({
            let blob = dtb_blob(magic, version, total, rsvmap, last_comp, boot_cpu, st, strs);
            &&& blob_readable(blob)
            &&& header_ok(blob) <==> (magic == 0xD00D_FEED && version == 17)
            &&& struct_block(blob) == st
            &&& strings_block(blob) == strs
            &&& header_word(blob, 1) == total
            &&& header_word(blob, 4) == rsvmap
            &&& header_word(blob, 6) == last_comp
            &&& header_word(blob, 7) == boot_cpu
        }),
{
    let ws = seq![magic, total, 40, 40 + st.len(), rsvmap, version, last_comp, boot_cpu, strs.len(), st.len()];
    let r = st + strs;
    let blob = dtb_blob(magic, version, total, rsvmap, last_comp, boot_cpu, st, strs);
    assert(blob =~= words(ws) + r);
    assert forall|j: int| 0 <= j < ws.len() implies #[trigger] ws[j] < 0x1_0000_0000 by {}
    lemma_words(ws, r, 0);
    lemma_words(ws, r, 1);
    lemma_words(ws, r, 2);
    lemma_words(ws, r, 3);
    lemma_words(ws, r, 4);
    lemma_words(ws, r, 5);
    lemma_words(ws, r, 6);
    lemma_words(ws, r, 7);
    lemma_words(ws, r, 8);
    lemma_words(ws, r, 9);
    assert(blob.subrange(40, 40 + st.len() as int) =~= st);
    assert(blob.subrange(40 + st.len() as int, 40 + st.len() + strs.len() as int) =~= strs);
}

} // verus!
