//! The grammar: a recursive-descent, precedence-climbing walk over the
//! significant tokens that emits tree-building events.

mod expr;
mod stmt;

use crate::event::Event;
use crate::marker::CompletedMarker;
use crate::parser::{
    g_complete, g_of, g_peeked, g_sig, gram_step, lemma_accounted_trans, Diagnostic, Parser,
};
use crate::token_kind::Token;
use crate::syntax::SyntaxKind;
use vstd::prelude::*;

verus! {

broadcast use vstd::seq::group_seq_axioms;

/// The statement loop of the specification-level grammar.
pub open spec fn spec_stmts(toks: Seq<Token>, st: (int, Seq<Event>, Seq<Diagnostic>)) -> (
    int,
    Seq<Event>,
    Seq<Diagnostic>,
)
    decreases toks.len() - st.0,
{
    let stp = g_peeked(toks, st);
    if g_sig(toks, st) >= toks.len() {
        stp
    } else {
        let st2 = stmt::spec_stmt(toks, stp).0;
        if st2.0 > st.0 && st2.0 <= toks.len() {
            spec_stmts(toks, st2)
        } else {
            st2
        }
    }
}

/// The statement loop reads tokens only through their views.
pub proof fn lemma_spec_stmts_view(
    toks1: Seq<Token>,
    toks2: Seq<Token>,
    st: (int, Seq<Event>, Seq<Diagnostic>),
)
    requires
        crate::source::token_views(toks1) == crate::source::token_views(toks2),
    ensures
        spec_stmts(toks1, st) == spec_stmts(toks2, st),
    decreases toks1.len() - st.0,
{
    crate::source::lemma_next_sig_view(toks1, toks2, st.0);
    assert(crate::source::token_views(toks1).len() == toks1.len());
    assert(crate::source::token_views(toks2).len() == toks2.len());
    let stp = g_peeked(toks1, st);
    if g_sig(toks1, st) < toks1.len() {
        stmt::lemma_spec_stmt_view(toks1, toks2, stp);
        let st2 = stmt::spec_stmt(toks1, stp).0;
        if st2.0 > st.0 && st2.0 <= toks1.len() {
            lemma_spec_stmts_view(toks1, toks2, st2);
        }
    }
}

/// The whole grammar reads tokens only through their views: two token
/// sequences with equal views yield the same event log and diagnostics.
pub proof fn lemma_spec_root_view(
    toks1: Seq<Token>,
    toks2: Seq<Token>,
    st: (int, Seq<Event>, Seq<Diagnostic>),
)
    requires
        crate::source::token_views(toks1) == crate::source::token_views(toks2),
    ensures
        spec_root(toks1, st) == spec_root(toks2, st),
{
    let st1 = (st.0, st.1.push(Event::Placeholder), st.2);
    lemma_spec_stmts_view(toks1, toks2, st1);
}

/// The root rule of the specification-level grammar: what the whole parse
/// appends to the event log and the diagnostics, as a function of the
/// tokens.
pub open spec fn spec_root(toks: Seq<Token>, st: (int, Seq<Event>, Seq<Diagnostic>)) -> (
    (int, Seq<Event>, Seq<Diagnostic>),
    int,
) {
    let pos = st.1.len() as int;
    let st1 = (st.0, st.1.push(Event::Placeholder), st.2);
    let st2 = spec_stmts(toks, st1);
    (g_complete(st2, pos, SyntaxKind::Root), pos)
}

/// Parse a whole input: one statement after another until the input is
/// exhausted, all under a single root node.
pub(crate) fn root(p: &mut Parser) -> (cm: CompletedMarker)
    requires
        old(p).inv(),
    ensures
        gram_step(*old(p), *final(p)),
        final(p).sig() == final(p).toks().len(),
        old(p).events@.len() == 0 ==> final(p).events@.len() > 0 && final(p).events@[0]
            == (Event::StartNode { kind: SyntaxKind::Root, forward_parent: None }),
        final(p).events@.len() > 0 && final(p).events@.last() == Event::FinishNode,
        cm.pos == old(p).events@.len(),
        cm.pos < final(p).events@.len(),
        final(p).events@[cm.pos as int] == (Event::StartNode {
            kind: SyntaxKind::Root,
            forward_parent: None,
        }),
        ({
            let s = spec_root(old(p).toks(), g_of(*old(p)));
            g_of(*final(p)) == s.0 && cm.pos as int == s.1
        }),
{
    let m = p.start();
    let ghost p1 = *p;
    stmts(p);
    let ghost p2 = *p;
    let cm = m.complete(p, SyntaxKind::Root);
    proof {
        lemma_accounted_trans(*old(p), p1, p2);
        lemma_accounted_trans(*old(p), p2, *p);
    }
    cm
}

/// Parse statements until the input is exhausted.
fn stmts(p: &mut Parser)
    requires
        old(p).inv(),
    ensures
        gram_step(*old(p), *final(p)),
        final(p).sig() == final(p).toks().len(),
        g_of(*final(p)) == spec_stmts(old(p).toks(), g_of(*old(p))),
    decreases p.toks().len() - p.source.cursor, 5int,
{
    let ghost p0 = *old(p);
    if p.at_end() {
        return ;
    }
    let ghost p1 = *p;
    let _stmt = stmt::stmt(p);
    let ghost p2 = *p;
    stmts(p);
    proof {
        lemma_accounted_trans(p0, p1, p2);
        lemma_accounted_trans(p0, p2, *p);
    }
}

} // verus!
