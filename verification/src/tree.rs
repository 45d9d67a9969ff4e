//! The immutable concrete syntax tree.
//!
//! Interior nodes carry a category; leaves carry a category and the exact
//! text they cover.  `node_leaves` is the mathematical view of a tree: its
//! leaves in tree order, and `node_text` their concatenated text.  The
//! round-trip law of the parser is stated over these functions.

use crate::syntax::{kind_of_token, SyntaxKind};
use crate::token_kind::{models_text, TokenKind};
use vstd::prelude::*;
use vstd::string::StringExecFns;

verus! {

broadcast use {vstd::seq::group_seq_axioms, vstd::std_specs::vec::group_vec_axioms};

/// A leaf: a category and the exact text it covers.
#[derive(Debug)]
pub struct SyntaxToken {
    pub kind: SyntaxKind,
    pub text: String,
}

/// A child of an interior node: either a nested node or a leaf.
#[derive(Debug)]
pub enum SyntaxElement {
    Node(SyntaxNode),
    Token(SyntaxToken),
}

/// An interior node: a category and its children in order.
#[derive(Debug)]
pub struct SyntaxNode {
    pub kind: SyntaxKind,
    pub children: Vec<SyntaxElement>,
}

/// The leaves under one element, in order, each as its category and text.
pub open spec fn elem_leaves(e: SyntaxElement) -> Seq<(SyntaxKind, Seq<char>)>
    decreases e, 0int,
{
    match e {
        SyntaxElement::Token(t) => seq![(t.kind, t.text@)],
        SyntaxElement::Node(n) => prefix_leaves(n, n.children@.len() as int),
    }
}

/// The leaves under the first `i` children of a node, in order.
pub open spec fn prefix_leaves(n: SyntaxNode, i: int) -> Seq<(SyntaxKind, Seq<char>)>
    decreases n, i,
{
    if i <= 0 || i > n.children@.len() {
        Seq::empty()
    } else {
        prefix_leaves(n, i - 1) + elem_leaves(n.children@[i - 1])
    }
}

/// The leaves of a whole node, in tree order.
pub open spec fn node_leaves(n: SyntaxNode) -> Seq<(SyntaxKind, Seq<char>)> {
    prefix_leaves(n, n.children@.len() as int)
}

/// The concatenated text of a sequence of leaves.
pub open spec fn leaves_text(ls: Seq<(SyntaxKind, Seq<char>)>) -> Seq<char>
    decreases ls.len(),
{
    if ls.len() == 0 {
        Seq::empty()
    } else {
        leaves_text(ls.drop_last()) + ls.last().1
    }
}

/// The text covered by a node: its leaf texts, concatenated in tree order.
pub open spec fn node_text(n: SyntaxNode) -> Seq<char> {
    leaves_text(node_leaves(n))
}

/// Concatenating leaf sequences concatenates their texts.
pub proof fn lemma_leaves_text_concat(a: Seq<(SyntaxKind, Seq<char>)>, b: Seq<
    (SyntaxKind, Seq<char>),
>)
    ensures
        leaves_text(a + b) == leaves_text(a) + leaves_text(b),
    decreases b.len(),
{
    if b.len() == 0 {
        assert(a + b =~= a);
        assert(leaves_text(a) + leaves_text(b) =~= leaves_text(a));
    } else {
        lemma_leaves_text_concat(a, b.drop_last());
        assert((a + b).drop_last() =~= a + b.drop_last());
        assert((a + b).last() == b.last());
        assert(leaves_text(a) + (leaves_text(b.drop_last()) + b.last().1) =~= (leaves_text(a)
            + leaves_text(b.drop_last())) + b.last().1);
    }
}

/// Two nodes whose first `i` children agree have the same first-`i` leaves.
pub proof fn lemma_prefix_leaves_agree(n1: SyntaxNode, n2: SyntaxNode, i: int)
    requires
        0 <= i <= n1.children@.len(),
        i <= n2.children@.len(),
        forall|j: int| 0 <= j < i ==> n1.children@[j] == n2.children@[j],
    ensures
        prefix_leaves(n1, i) == prefix_leaves(n2, i),
    decreases i,
{
    if i > 0 {
        lemma_prefix_leaves_agree(n1, n2, i - 1);
    }
}

/// Appending a child appends its leaves.
pub proof fn lemma_node_leaves_push(n: SyntaxNode, n2: SyntaxNode, e: SyntaxElement)
    requires
        n2.children@ == n.children@.push(e),
    ensures
        node_leaves(n2) == node_leaves(n) + elem_leaves(e),
    decreases n.children@.len(),
{
    let len = n.children@.len() as int;
    lemma_prefix_leaves_agree(n2, n, len);
    assert(n2.children@[len] == e);
    assert(prefix_leaves(n2, len + 1) == prefix_leaves(n2, len) + elem_leaves(e));
}

/// The text covered by one element.
pub open spec fn elem_text(e: SyntaxElement) -> Seq<char> {
    leaves_text(elem_leaves(e))
}

/// One entry of a tree's preorder serialization.  The serialization
/// determines the tree completely: a node prints as an open entry, its
/// children in order, and a close entry; a leaf prints as itself.
pub enum PreEvent {
    Open(SyntaxKind),
    Leaf(SyntaxKind, Seq<char>),
    Close,
}

/// The preorder serialization of one element.
pub open spec fn elem_pre(e: SyntaxElement) -> Seq<PreEvent>
    decreases e, 0int,
{
    match e {
        SyntaxElement::Token(t) => seq![PreEvent::Leaf(t.kind, t.text@)],
        SyntaxElement::Node(n) => seq![PreEvent::Open(n.kind)] + prefix_pre(
            n,
            n.children@.len() as int,
        ) + seq![PreEvent::Close],
    }
}

/// The serialization of the first `i` children of a node, in order.
pub open spec fn prefix_pre(n: SyntaxNode, i: int) -> Seq<PreEvent>
    decreases n, i,
{
    if i <= 0 || i > n.children@.len() {
        Seq::empty()
    } else {
        prefix_pre(n, i - 1) + elem_pre(n.children@[i - 1])
    }
}

/// The preorder serialization of a whole node.
pub open spec fn node_pre(n: SyntaxNode) -> Seq<PreEvent> {
    seq![PreEvent::Open(n.kind)] + prefix_pre(n, n.children@.len() as int) + seq![PreEvent::Close]
}

/// Two nodes whose first `i` children agree serialize those children the
/// same way.
pub proof fn lemma_prefix_pre_agree(n1: SyntaxNode, n2: SyntaxNode, i: int)
    requires
        0 <= i <= n1.children@.len(),
        i <= n2.children@.len(),
        forall|j: int| 0 <= j < i ==> n1.children@[j] == n2.children@[j],
    ensures
        prefix_pre(n1, i) == prefix_pre(n2, i),
    decreases i,
{
    if i > 0 {
        lemma_prefix_pre_agree(n1, n2, i - 1);
    }
}

/// Appending a child appends its serialization.
pub proof fn lemma_prefix_pre_push(n: SyntaxNode, n2: SyntaxNode, e: SyntaxElement)
    requires
        n2.children@ == n.children@.push(e),
    ensures
        prefix_pre(n2, n2.children@.len() as int) == prefix_pre(n, n.children@.len() as int)
            + elem_pre(e),
{
    let len = n.children@.len() as int;
    lemma_prefix_pre_agree(n2, n, len);
    assert(n2.children@[len] == e);
    assert(prefix_pre(n2, len + 1) == prefix_pre(n2, len) + elem_pre(e));
}

/// Every child contributes at least one serialization entry.
pub proof fn lemma_prefix_pre_ge(n: SyntaxNode, i: int)
    requires
        0 <= i <= n.children@.len(),
    ensures
        prefix_pre(n, i).len() >= i,
    decreases i,
{
    if i > 0 {
        lemma_prefix_pre_ge(n, i - 1);
        assert(elem_pre(n.children@[i - 1]).len() >= 1) by {
            match n.children@[i - 1] {
                SyntaxElement::Token(_) => {},
                SyntaxElement::Node(_) => {},
            }
        }
    }
}

/// A leaf's covered text is exactly its own text.
pub proof fn lemma_elem_text_token(t: SyntaxToken)
    ensures
        elem_text(SyntaxElement::Token(t)) == t.text@,
{
    let l = seq![(t.kind, t.text@)];
    assert(l.len() == 1);
    assert(l.last() == (t.kind, t.text@));
    assert(l.drop_last() =~= Seq::<(SyntaxKind, Seq<char>)>::empty());
    assert(leaves_text(l.drop_last()) =~= Seq::<char>::empty());
    assert(leaves_text(l) =~= t.text@);
}

/// Extending the child prefix by one child appends that child's text.
pub proof fn lemma_prefix_text_step(n: SyntaxNode, i: int)
    requires
        0 <= i < n.children@.len(),
    ensures
        leaves_text(prefix_leaves(n, i + 1)) == leaves_text(prefix_leaves(n, i)) + elem_text(
            n.children@[i],
        ),
{
    lemma_leaves_text_concat(prefix_leaves(n, i), elem_leaves(n.children@[i]));
}


fn elem_text_into(e: &SyntaxElement, out: &mut String)
    ensures
        final(out)@ == old(out)@ + elem_text(*e),
    decreases *e, 0int,
{
    match e {
        SyntaxElement::Token(t) => {
            proof {
                let l = seq![(t.kind, t.text@)];
                assert(l.len() == 1);
                assert(l.last() == (t.kind, t.text@));
                assert(l.drop_last() =~= Seq::<(SyntaxKind, Seq<char>)>::empty());
                assert(leaves_text(l.drop_last()) =~= Seq::<char>::empty());
                assert(leaves_text(l) =~= t.text@);
            }
            out.append(t.text.as_str());
        },
        SyntaxElement::Node(n) => {
            node_text_into(n, out);
        },
    }
}

fn node_text_into(n: &SyntaxNode, out: &mut String)
    ensures
        final(out)@ == old(out)@ + node_text(*n),
    decreases *n, 1int,
{
    let mut i: usize = 0;
    proof {
        assert(old(out)@ + leaves_text(prefix_leaves(*n, 0)) =~= old(out)@);
    }
    while i < n.children.len()
        invariant
            i <= n.children@.len(),
            out@ == old(out)@ + leaves_text(prefix_leaves(*n, i as int)),
        decreases n.children@.len() - i,
    {
        elem_text_into(&n.children[i], out);
        proof {
            lemma_leaves_text_concat(prefix_leaves(*n, i as int), elem_leaves(n.children@[
                i as int]));
            assert(prefix_leaves(*n, i + 1) == prefix_leaves(*n, i as int) + elem_leaves(
                n.children@[i as int],
            ));
            assert(old(out)@ + (leaves_text(prefix_leaves(*n, i as int)) + leaves_text(
                elem_leaves(n.children@[i as int]),
            )) =~= (old(out)@ + leaves_text(prefix_leaves(*n, i as int))) + leaves_text(
                elem_leaves(n.children@[i as int]),
            ));
        }
        i += 1;
    }
}

/// The leaf a token becomes: its tree-kind category (an unrecognized token
/// becomes an error leaf) and its unchanged text.
pub open spec fn leaf_of_model(m: (Result<TokenKind, ()>, Seq<char>)) -> (SyntaxKind, Seq<char>) {
    match m.0 {
        Ok(k) => (kind_of_token(k), m.1),
        Err(_) => (SyntaxKind::Error, m.1),
    }
}

proof fn lemma_models_text_push(ms: Seq<(Result<TokenKind, ()>, Seq<char>)>, m: (
    Result<TokenKind, ()>,
    Seq<char>,
))
    ensures
        models_text(ms.push(m)) == models_text(ms) + m.1,
    decreases ms.len(),
{
    if ms.len() == 0 {
        assert(ms.push(m)[0] == m);
        assert(ms.push(m).drop_first() =~= Seq::<(Result<TokenKind, ()>, Seq<char>)>::empty());
        assert(models_text(ms.push(m).drop_first()) =~= Seq::<char>::empty());
        assert(models_text(ms) =~= Seq::<char>::empty());
        assert(models_text(ms.push(m)) =~= models_text(ms) + m.1);
    } else {
        lemma_models_text_push(ms.drop_first(), m);
        assert(ms.push(m).drop_first() =~= ms.drop_first().push(m));
        assert(ms.push(m)[0] == ms[0]);
        assert(ms[0].1 + (models_text(ms.drop_first()) + m.1) =~= (ms[0].1 + models_text(
            ms.drop_first(),
        )) + m.1);
    }
}

/// The leaf a token value becomes.
pub open spec fn token_leaf(t: crate::token_kind::Token) -> (SyntaxKind, Seq<char>) {
    leaf_of_model((t.kind, t.text@))
}

/// The leaves a token sequence becomes, in order.
pub open spec fn leaves_of_tokens(ts: Seq<crate::token_kind::Token>) -> Seq<
    (SyntaxKind, Seq<char>),
> {
    ts.map_values(|t: crate::token_kind::Token| token_leaf(t))
}

/// The leaves a sequence of token models becomes, in order.
pub open spec fn leaves_of_models(ms: Seq<(Result<TokenKind, ()>, Seq<char>)>) -> Seq<
    (SyntaxKind, Seq<char>),
> {
    ms.map_values(|m: (Result<TokenKind, ()>, Seq<char>)| leaf_of_model(m))
}

/// Tokens and their models become the same leaves.
pub proof fn lemma_leaves_of(ts: Seq<crate::token_kind::Token>)
    ensures
        leaves_of_tokens(ts) == leaves_of_models(
            ts.map_values(|t: crate::token_kind::Token| t@),
        ),
{
    let vs = ts.map_values(|t: crate::token_kind::Token| t@);
    assert(leaves_of_tokens(ts) =~= leaves_of_models(vs)) by {
        assert forall|i: int| 0 <= i < ts.len() implies leaves_of_tokens(ts)[i]
            == leaves_of_models(vs)[i] by {
            assert(vs[i] == ts[i]@);
        }
    }
}

/// Turning tokens into leaves keeps their concatenated text unchanged.
pub proof fn lemma_leaf_texts(ms: Seq<(Result<TokenKind, ()>, Seq<char>)>)
    ensures
        leaves_text(leaves_of_models(ms)) == models_text(ms),
    decreases ms.len(),
{
    if ms.len() == 0 {
        assert(leaves_of_models(ms) =~= Seq::<(SyntaxKind, Seq<char>)>::empty());
        assert(leaves_text(leaves_of_models(ms)) =~= models_text(ms));
    } else {
        let pre = ms.drop_last();
        let m = ms.last();
        lemma_leaf_texts(pre);
        lemma_models_text_push(pre, m);
        assert(pre.push(m) =~= ms);
        assert(leaves_of_models(ms).drop_last() =~= leaves_of_models(pre));
        assert(leaves_of_models(ms).len() == ms.len());
        assert(leaves_of_models(ms).last() == leaf_of_model(m));
        assert(leaves_text(leaves_of_models(ms)) == leaves_text(leaves_of_models(pre))
            + leaf_of_model(m).1);
    }
}

impl SyntaxNode {
    /// The exact source text this node covers: its leaf texts concatenated
    /// in tree order.
    pub fn text(&self) -> (r: String)
        ensures
            r@ == node_text(*self),
    {
        let mut out = String::new();
        node_text_into(self, &mut out);
        proof {
            assert(Seq::<char>::empty() + node_text(*self) =~= node_text(*self));
        }
        out
    }
}

} // verus!
