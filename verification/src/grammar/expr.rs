//! Expressions, parsed by precedence climbing.
//!
//! `expr_binding_power` parses a left-hand side and then keeps extending it
//! while the next operator binds at least as tightly as `min_bp`.  Each
//! extension retroactively nests the already-finished left-hand side under
//! a new infix node through the marker's forward-parent mechanism.  The
//! right-hand side is parsed with the operator's own right binding power,
//! which makes operators of equal precedence associate to the left.

use crate::marker::CompletedMarker;
use crate::event::Event;
use crate::parser::{
    at_expr_start, at_kind_spec, errors_extended, g_bump, g_complete, g_error, g_of, g_peeked,
    g_expect, g_precede, gram_step, lemma_accounted_trans, log_accounted, Diagnostic, Parser,
};
use crate::event::{start_fp, start_kind};
use crate::source::{sig_count, token_kind_view};
use crate::syntax::SyntaxKind;
use crate::token_kind::Token;
use vstd::prelude::*;

verus! {

broadcast use vstd::seq::group_seq_axioms;

/// The binding powers of the binary operators: multiplication and division
/// bind tighter than addition and subtraction; all four associate to the
/// left, which the unequal left/right pairs encode.
pub open spec fn infix_bp_spec(k: SyntaxKind) -> Option<(u8, u8)> {
    match k {
        SyntaxKind::Plus => Some((1, 2)),
        SyntaxKind::Minus => Some((1, 2)),
        SyntaxKind::Star => Some((3, 4)),
        SyntaxKind::Slash => Some((3, 4)),
        _ => None,
    }
}

/// The binding powers of the operator at the next significant token, if
/// that token is a binary operator.
pub open spec fn next_op_bp(p: Parser) -> Option<(u8, u8)> {
    if p.sig() < p.toks().len() {
        match token_kind_view(p.toks()[p.sig()]) {
            Ok(k) => infix_bp_spec(k),
            Err(_) => None,
        }
    } else {
        None
    }
}

/// The log state's binding powers at the next significant token.
pub open spec fn g_op_bp(toks: Seq<Token>, st: (int, Seq<Event>, Seq<Diagnostic>)) -> Option<
    (u8, u8),
> {
    if crate::parser::g_sig(toks, st) < toks.len() {
        match token_kind_view(toks[crate::parser::g_sig(toks, st)]) {
            Ok(k) => infix_bp_spec(k),
            Err(_) => None,
        }
    } else {
        None
    }
}

/// A single-token node: reserve, consume, complete with the category.
pub open spec fn spec_token_node(
    toks: Seq<Token>,
    st: (int, Seq<Event>, Seq<Diagnostic>),
    kind: SyntaxKind,
) -> ((int, Seq<Event>, Seq<Diagnostic>), int) {
    let pos = st.1.len() as int;
    let st1 = (st.0, st.1.push(Event::Placeholder), st.2);
    let st2 = g_bump(toks, st1);
    (g_complete(st2, pos, kind), pos)
}

/// The unary-minus rule of the specification-level grammar.
pub open spec fn spec_prefix(toks: Seq<Token>, st: (int, Seq<Event>, Seq<Diagnostic>)) -> (
    (int, Seq<Event>, Seq<Diagnostic>),
    int,
)
    decreases toks.len() - st.0, 0int,
{
    let pos = st.1.len() as int;
    let st1 = (st.0, st.1.push(Event::Placeholder), st.2);
    let st2 = g_bump(toks, st1);
    let st3 = if st2.0 > st.0 && st2.0 <= toks.len() {
        spec_ebp(toks, st2, 5).0
    } else {
        st2
    };
    (g_complete(st3, pos, SyntaxKind::PrefixExpr), pos)
}

/// The parenthesized-expression rule of the specification-level grammar.
pub open spec fn spec_paren(toks: Seq<Token>, st: (int, Seq<Event>, Seq<Diagnostic>)) -> (
    (int, Seq<Event>, Seq<Diagnostic>),
    int,
)
    decreases toks.len() - st.0, 0int,
{
    let pos = st.1.len() as int;
    let st1 = (st.0, st.1.push(Event::Placeholder), st.2);
    let st2 = g_bump(toks, st1);
    let st3 = if st2.0 > st.0 && st2.0 <= toks.len() {
        spec_ebp(toks, st2, 0).0
    } else {
        st2
    };
    let st4 = g_expect(toks, st3, SyntaxKind::RParen);
    (g_complete(st4, pos, SyntaxKind::ParenExpr), pos)
}

/// The left-hand-side rule of the specification-level grammar.
pub open spec fn spec_lhs(toks: Seq<Token>, st: (int, Seq<Event>, Seq<Diagnostic>)) -> (
    (int, Seq<Event>, Seq<Diagnostic>),
    Option<int>,
)
    decreases toks.len() - st.0, 1int,
{
    let stp = g_peeked(toks, st);
    let guard = stp.0 >= st.0 && stp.0 <= toks.len();
    if stp.0 >= toks.len() {
        (stp, None)
    } else {
        match token_kind_view(toks[stp.0]) {
            Ok(SyntaxKind::Number) => {
                let r = spec_token_node(toks, stp, SyntaxKind::Literal);
                (r.0, Some(r.1))
            },
            Ok(SyntaxKind::Dice) => {
                let r = spec_token_node(toks, stp, SyntaxKind::Literal);
                (r.0, Some(r.1))
            },
            Ok(SyntaxKind::Ident) => {
                let r = spec_token_node(toks, stp, SyntaxKind::VariableRef);
                (r.0, Some(r.1))
            },
            Ok(SyntaxKind::Minus) => {
                if guard {
                    let r = spec_prefix(toks, stp);
                    (r.0, Some(r.1))
                } else {
                    (stp, None)
                }
            },
            Ok(SyntaxKind::LParen) => {
                if guard {
                    let r = spec_paren(toks, stp);
                    (r.0, Some(r.1))
                } else {
                    (stp, None)
                }
            },
            Ok(SyntaxKind::LetKw) => (stp, None),
            _ => (g_error(toks, stp), None),
        }
    }
}

/// The operator loop of the specification-level grammar.
pub open spec fn spec_infix(
    toks: Seq<Token>,
    st: (int, Seq<Event>, Seq<Diagnostic>),
    min_bp: u8,
    lhs_pos: int,
) -> ((int, Seq<Event>, Seq<Diagnostic>), int)
    decreases toks.len() - st.0, 2int,
{
    let stp = g_peeked(toks, st);
    let op = g_op_bp(toks, st);
    if op is None || op.unwrap().0 < min_bp {
        (stp, lhs_pos)
    } else {
        let st1 = g_bump(toks, stp);
        let pr = g_precede(st1, lhs_pos);
        let st2 = pr.0;
        let mpos = pr.1;
        let rhs = if st2.0 > st.0 && st2.0 <= toks.len() {
            spec_ebp(toks, st2, op.unwrap().1)
        } else {
            (st2, None)
        };
        let st3 = g_complete(rhs.0, mpos, SyntaxKind::InfixExpr);
        if rhs.1 is None {
            (st3, mpos)
        } else {
            if st3.0 > st.0 && st3.0 <= toks.len() {
                spec_infix(toks, st3, min_bp, mpos)
            } else {
                (st3, mpos)
            }
        }
    }
}

/// The precedence-climbing rule of the specification-level grammar.
pub open spec fn spec_ebp(
    toks: Seq<Token>,
    st: (int, Seq<Event>, Seq<Diagnostic>),
    min_bp: u8,
) -> ((int, Seq<Event>, Seq<Diagnostic>), Option<int>)
    decreases toks.len() - st.0, 3int,
{
    let lhs = spec_lhs(toks, st);
    match lhs.1 {
        None => (lhs.0, None),
        Some(pos) => {
            let st1 = lhs.0;
            if st1.0 >= st.0 && st1.0 <= toks.len() {
                let fin = spec_infix(toks, st1, min_bp, pos);
                (fin.0, Some(fin.1))
            } else {
                (st1, Some(pos))
            }
        },
    }
}

proof fn lemma_view_facts(toks1: Seq<Token>, toks2: Seq<Token>, i: int)
    requires
        crate::source::token_views(toks1) == crate::source::token_views(toks2),
    ensures
        toks1.len() == toks2.len(),
        0 <= i < toks1.len() ==> token_kind_view(toks1[i]) == token_kind_view(toks2[i]),
{
    assert(crate::source::token_views(toks1).len() == toks1.len());
    assert(crate::source::token_views(toks2).len() == toks2.len());
    if 0 <= i < toks1.len() {
        assert(crate::source::token_views(toks1)[i] == toks1[i]@);
        assert(crate::source::token_views(toks2)[i] == toks2[i]@);
    }
}

proof fn lemma_spec_token_node_view(
    toks1: Seq<Token>,
    toks2: Seq<Token>,
    st: (int, Seq<Event>, Seq<Diagnostic>),
    kind: SyntaxKind,
)
    requires
        crate::source::token_views(toks1) == crate::source::token_views(toks2),
    ensures
        spec_token_node(toks1, st, kind) == spec_token_node(toks2, st, kind),
{
    crate::source::lemma_next_sig_view(toks1, toks2, st.0);
    crate::source::lemma_next_sig_ge0(toks1, st.0);
}

proof fn lemma_spec_prefix_view(
    toks1: Seq<Token>,
    toks2: Seq<Token>,
    st: (int, Seq<Event>, Seq<Diagnostic>),
)
    requires
        crate::source::token_views(toks1) == crate::source::token_views(toks2),
    ensures
        spec_prefix(toks1, st) == spec_prefix(toks2, st),
    decreases toks1.len() - st.0, 0int,
{
    lemma_view_facts(toks1, toks2, st.0);
    crate::source::lemma_next_sig_view(toks1, toks2, st.0);
    let st1 = (st.0, st.1.push(Event::Placeholder), st.2);
    let st2 = g_bump(toks1, st1);
    if st2.0 > st.0 && st2.0 <= toks1.len() {
        lemma_spec_ebp_view(toks1, toks2, st2, 5);
    }
}

proof fn lemma_spec_paren_view(
    toks1: Seq<Token>,
    toks2: Seq<Token>,
    st: (int, Seq<Event>, Seq<Diagnostic>),
)
    requires
        crate::source::token_views(toks1) == crate::source::token_views(toks2),
    ensures
        spec_paren(toks1, st) == spec_paren(toks2, st),
    decreases toks1.len() - st.0, 0int,
{
    lemma_view_facts(toks1, toks2, st.0);
    crate::source::lemma_next_sig_view(toks1, toks2, st.0);
    crate::source::lemma_next_sig_ge0(toks1, st.0);
    let st1 = (st.0, st.1.push(Event::Placeholder), st.2);
    let st2 = g_bump(toks1, st1);
    if st2.0 > st.0 && st2.0 <= toks1.len() {
        lemma_spec_ebp_view(toks1, toks2, st2, 0);
        let st3 = spec_ebp(toks1, st2, 0).0;
        crate::source::lemma_next_sig_view(toks1, toks2, st3.0);
        crate::source::lemma_next_sig_ge0(toks1, st3.0);
        lemma_view_facts(toks1, toks2, crate::parser::g_sig(toks1, st3));
    } else {
        crate::source::lemma_next_sig_view(toks1, toks2, st2.0);
        crate::source::lemma_next_sig_ge0(toks1, st2.0);
        lemma_view_facts(toks1, toks2, crate::parser::g_sig(toks1, st2));
    }
}

proof fn lemma_spec_lhs_view(
    toks1: Seq<Token>,
    toks2: Seq<Token>,
    st: (int, Seq<Event>, Seq<Diagnostic>),
)
    requires
        crate::source::token_views(toks1) == crate::source::token_views(toks2),
    ensures
        spec_lhs(toks1, st) == spec_lhs(toks2, st),
    decreases toks1.len() - st.0, 1int,
{
    lemma_view_facts(toks1, toks2, st.0);
    crate::source::lemma_next_sig_view(toks1, toks2, st.0);
    crate::source::lemma_next_sig_ge0(toks1, st.0);
    let stp = g_peeked(toks1, st);
    if stp.0 < toks1.len() {
        lemma_view_facts(toks1, toks2, stp.0);
        match token_kind_view(toks1[stp.0]) {
            Ok(SyntaxKind::Number) => {
                lemma_spec_token_node_view(toks1, toks2, stp, SyntaxKind::Literal);
            },
            Ok(SyntaxKind::Dice) => {
                lemma_spec_token_node_view(toks1, toks2, stp, SyntaxKind::Literal);
            },
            Ok(SyntaxKind::Ident) => {
                lemma_spec_token_node_view(toks1, toks2, stp, SyntaxKind::VariableRef);
            },
            Ok(SyntaxKind::Minus) => {
                if stp.0 >= st.0 && stp.0 <= toks1.len() {
                    lemma_spec_prefix_view(toks1, toks2, stp);
                }
            },
            Ok(SyntaxKind::LParen) => {
                if stp.0 >= st.0 && stp.0 <= toks1.len() {
                    lemma_spec_paren_view(toks1, toks2, stp);
                }
            },
            Ok(SyntaxKind::LetKw) => {},
            _ => {
                crate::source::lemma_next_sig_view(toks1, toks2, stp.0);
                crate::source::lemma_next_sig_ge0(toks1, stp.0);
                lemma_view_facts(toks1, toks2, crate::parser::g_sig(toks1, stp));
            },
        }
    }
}

proof fn lemma_spec_infix_view(
    toks1: Seq<Token>,
    toks2: Seq<Token>,
    st: (int, Seq<Event>, Seq<Diagnostic>),
    min_bp: u8,
    lhs_pos: int,
)
    requires
        crate::source::token_views(toks1) == crate::source::token_views(toks2),
    ensures
        spec_infix(toks1, st, min_bp, lhs_pos) == spec_infix(toks2, st, min_bp, lhs_pos),
    decreases toks1.len() - st.0, 2int,
{
    lemma_view_facts(toks1, toks2, st.0);
    crate::source::lemma_next_sig_view(toks1, toks2, st.0);
    crate::source::lemma_next_sig_ge0(toks1, st.0);
    lemma_view_facts(toks1, toks2, crate::parser::g_sig(toks1, st));
    let op = g_op_bp(toks1, st);
    if !(op is None || op.unwrap().0 < min_bp) {
        let stp = g_peeked(toks1, st);
        crate::source::lemma_next_sig_view(toks1, toks2, stp.0);
        let st1 = g_bump(toks1, stp);
        let pr = g_precede(st1, lhs_pos);
        let st2 = pr.0;
        if st2.0 > st.0 && st2.0 <= toks1.len() {
            lemma_spec_ebp_view(toks1, toks2, st2, op.unwrap().1);
        }
        let rhs = if st2.0 > st.0 && st2.0 <= toks1.len() {
            spec_ebp(toks1, st2, op.unwrap().1)
        } else {
            (st2, None)
        };
        let st3 = g_complete(rhs.0, pr.1, SyntaxKind::InfixExpr);
        if !(rhs.1 is None) && st3.0 > st.0 && st3.0 <= toks1.len() {
            lemma_spec_infix_view(toks1, toks2, st3, min_bp, pr.1);
        }
    }
}

proof fn lemma_spec_ebp_view(
    toks1: Seq<Token>,
    toks2: Seq<Token>,
    st: (int, Seq<Event>, Seq<Diagnostic>),
    min_bp: u8,
)
    requires
        crate::source::token_views(toks1) == crate::source::token_views(toks2),
    ensures
        spec_ebp(toks1, st, min_bp) == spec_ebp(toks2, st, min_bp),
    decreases toks1.len() - st.0, 3int,
{
    lemma_view_facts(toks1, toks2, st.0);
    lemma_spec_lhs_view(toks1, toks2, st);
    let lhs = spec_lhs(toks1, st);
    match lhs.1 {
        None => {},
        Some(pos) => {
            if lhs.0.0 >= st.0 && lhs.0.0 <= toks1.len() {
                lemma_spec_infix_view(toks1, toks2, lhs.0, min_bp, pos);
            }
        },
    }
}

/// Driving the expression grammar depends on the tokens only through their
/// views.
pub proof fn lemma_spec_ebp_views_agree(
    toks1: Seq<Token>,
    toks2: Seq<Token>,
    st: (int, Seq<Event>, Seq<Diagnostic>),
    min_bp: u8,
)
    requires
        crate::source::token_views(toks1) == crate::source::token_views(toks2),
    ensures
        spec_ebp(toks1, st, min_bp) == spec_ebp(toks2, st, min_bp),
{
    lemma_spec_ebp_view(toks1, toks2, st, min_bp);
}

fn infix_bp(k: SyntaxKind) -> (r: Option<(u8, u8)>)
    ensures
        r == infix_bp_spec(k),
{
    match k {
        SyntaxKind::Plus => Some((1, 2)),
        SyntaxKind::Minus => Some((1, 2)),
        SyntaxKind::Star => Some((3, 4)),
        SyntaxKind::Slash => Some((3, 4)),
        _ => None,
    }
}

/// Parse one expression.  At the end of the input or before a
/// statement-starting keyword nothing is consumed and nothing is logged:
/// the caller is told that no expression was present.
pub(crate) fn expr(p: &mut Parser) -> (r: Option<CompletedMarker>)
    requires
        old(p).inv(),
    ensures
        gram_step(*old(p), *final(p)),
        (old(p).sig() == old(p).toks().len() || at_kind_spec(*old(p), SyntaxKind::LetKw))
            ==> r is None && final(p).events == old(p).events
                && final(p).errors == old(p).errors
                && final(p).source.cursor == old(p).sig(),
        (old(p).sig() < old(p).toks().len() && !at_kind_spec(*old(p), SyntaxKind::LetKw))
            ==> final(p).source.cursor > old(p).sig(),
        r is Some <==> at_expr_start(*old(p)),
        ({
            let s = spec_ebp(old(p).toks(), g_of(*old(p)), 0);
            &&& g_of(*final(p)) == s.0
            &&& (r is Some <==> s.1 is Some)
            &&& (r is Some ==> r.unwrap().pos as int == s.1.unwrap())
        }),
    decreases p.toks().len() - p.source.cursor, 3int,
{
    expr_binding_power(p, 0)
}

fn expr_binding_power(p: &mut Parser, min_bp: u8) -> (r: Option<CompletedMarker>)
    requires
        old(p).inv(),
    ensures
        gram_step(*old(p), *final(p)),
        (old(p).sig() == old(p).toks().len() || at_kind_spec(*old(p), SyntaxKind::LetKw))
            ==> r is None && final(p).events == old(p).events
                && final(p).errors == old(p).errors
                && final(p).source.cursor == old(p).sig(),
        (old(p).sig() < old(p).toks().len() && !at_kind_spec(*old(p), SyntaxKind::LetKw))
            ==> final(p).source.cursor > old(p).sig(),
        r is Some <==> at_expr_start(*old(p)),
        old(p).source.cursor <= old(p).sig() <= old(p).toks().len(),
        ({
            let s = spec_ebp(old(p).toks(), g_of(*old(p)), min_bp);
            &&& g_of(*final(p)) == s.0
            &&& (r is Some <==> s.1 is Some)
            &&& (r is Some ==> r.unwrap().pos as int == s.1.unwrap())
        }),
    decreases p.toks().len() - p.source.cursor, 3int,
{
    let lhs_opt = lhs(p);
    let ghost p1 = *p;
    let r = match lhs_opt {
        Some(cm) => Some(infix_loop(p, min_bp, cm)),
        None => None,
    };
    proof {
        lemma_accounted_trans(*old(p), p1, *p);
    }
    r
}

/// Keep extending `lhs_cm` with infix nodes while the next operator binds
/// at least as tightly as `min_bp`.
fn infix_loop(p: &mut Parser, min_bp: u8, lhs_cm: CompletedMarker) -> (r: CompletedMarker)
    requires
        old(p).inv(),
        lhs_cm.pos < old(p).events@.len(),
        old(p).events@[lhs_cm.pos as int] is StartNode,
    ensures
        final(p).inv(),
        final(p).toks() == old(p).toks(),
        final(p).source.cursor >= old(p).source.cursor,
        final(p).events@.len() >= old(p).events@.len(),
        forall|i: int|
            0 <= i < old(p).events@.len() && i != lhs_cm.pos ==> final(p).events@[i] == old(
                p,
            ).events@[i],
        final(p).events@[lhs_cm.pos as int] is StartNode,
        start_kind(final(p).events@[lhs_cm.pos as int]) == start_kind(
            old(p).events@[lhs_cm.pos as int],
        ),
        log_accounted(*old(p), *final(p)),
        errors_extended(*old(p), *final(p)),
        ({
            let s = spec_infix(old(p).toks(), g_of(*old(p)), min_bp, lhs_cm.pos as int);
            g_of(*final(p)) == s.0 && r.pos as int == s.1
        }),
        (next_op_bp(*old(p)) is Some && next_op_bp(*old(p)).unwrap().0 >= min_bp) ==> ({
            &&& final(p).source.cursor > old(p).sig()
            &&& start_fp(final(p).events@[lhs_cm.pos as int]) is Some
            &&& final(p).events@.len() > old(p).events@.len() + 1
            &&& final(p).events@[old(p).events@.len() as int + 1] is StartNode
            &&& start_kind(final(p).events@[old(p).events@.len() as int + 1])
                == SyntaxKind::InfixExpr
        }),
    decreases p.toks().len() - p.source.cursor, 2int,
{
    let peeked = p.peek();
    let op_bp = match peeked {
        Some(Ok(k)) => infix_bp(k),
        _ => None,
    };
    let bp: (u8, u8);
    match op_bp {
        Some(b) => {
            bp = b;
        },
        None => {
            return lhs_cm;
        },
    }
    if bp.0 < min_bp {
        return lhs_cm;
    }
    let ghost p1 = *p;
    p.bump();
    let ghost p2 = *p;
    let m = lhs_cm.precede(p);
    let ghost p3 = *p;
    let rhs = expr_binding_power(p, bp.1);
    let ghost p4 = *p;
    let new_cm = m.complete(p, SyntaxKind::InfixExpr);
    let ghost p5 = *p;
    proof {
        lemma_accounted_trans(*old(p), p1, p2);
        lemma_accounted_trans(*old(p), p2, p3);
        lemma_accounted_trans(*old(p), p3, p4);
        lemma_accounted_trans(*old(p), p4, p5);
    }
    if rhs.is_none() {
        return new_cm;
    }
    let r = infix_loop(p, min_bp, new_cm);
    proof {
        lemma_accounted_trans(*old(p), p5, *p);
    }
    r
}

/// Parse the left-hand side of an expression: a literal, a variable
/// reference, a parenthesized expression, or unary minus.  At the end of
/// the input or before the statement-starting keyword `let`, nothing is
/// consumed; any other unexpected token is wrapped in an error node.
fn lhs(p: &mut Parser) -> (r: Option<CompletedMarker>)
    requires
        old(p).inv(),
    ensures
        gram_step(*old(p), *final(p)),
        (old(p).sig() == old(p).toks().len() || at_kind_spec(*old(p), SyntaxKind::LetKw))
            ==> r is None && final(p).events == old(p).events
                && final(p).errors == old(p).errors
                && final(p).source.cursor == old(p).sig(),
        (old(p).sig() < old(p).toks().len() && !at_kind_spec(*old(p), SyntaxKind::LetKw))
            ==> final(p).source.cursor > old(p).sig(),
        r is Some <==> at_expr_start(*old(p)),
        r is Some ==> old(p).events@.len() <= r.unwrap().pos < final(p).events@.len()
            && final(p).events@[r.unwrap().pos as int] is StartNode,
        old(p).source.cursor <= old(p).sig() <= old(p).toks().len(),
        ({
            let s = spec_lhs(old(p).toks(), g_of(*old(p)));
            &&& g_of(*final(p)) == s.0
            &&& (r is Some <==> s.1 is Some)
            &&& (r is Some ==> r.unwrap().pos as int == s.1.unwrap())
        }),
    decreases p.toks().len() - p.source.cursor, 1int,
{
    let peeked = p.peek();
    let ghost p1 = *p;
    let r = match peeked {
        Some(Ok(SyntaxKind::Number)) => {
            let cm = literal(p);
            proof {
                assert(log_accounted(p1, *p));
            }
            Some(cm)
        },
        Some(Ok(SyntaxKind::Dice)) => {
            let cm = literal(p);
            proof {
                assert(log_accounted(p1, *p));
            }
            Some(cm)
        },
        Some(Ok(SyntaxKind::Ident)) => {
            let cm = variable_ref(p);
            proof {
                assert(log_accounted(p1, *p));
            }
            Some(cm)
        },
        Some(Ok(SyntaxKind::Minus)) => {
            let cm = prefix_expr(p);
            proof {
                assert(log_accounted(p1, *p));
            }
            Some(cm)
        },
        Some(Ok(SyntaxKind::LParen)) => {
            let cm = paren_expr(p);
            proof {
                assert(log_accounted(p1, *p));
            }
            Some(cm)
        },
        Some(Ok(SyntaxKind::LetKw)) => {
            proof {
                assert(sig_count(p1.toks(), p1.source.cursor as int, p1.source.cursor as int)
                    == 0);
                assert(log_accounted(p1, *p));
            }
            None
        },
        None => {
            proof {
                assert(sig_count(p1.toks(), p1.source.cursor as int, p1.source.cursor as int)
                    == 0);
                assert(log_accounted(p1, *p));
            }
            None
        },
        Some(_) => {
            p.error();
            proof {
                assert(log_accounted(p1, *p));
            }
            None
        },
    };
    proof {
        lemma_accounted_trans(*old(p), p1, *p);
    }
    r
}

/// An integer or dice literal becomes a `Literal` node around its token.
fn literal(p: &mut Parser) -> (cm: CompletedMarker)
    requires
        old(p).inv(),
        at_kind_spec(*old(p), SyntaxKind::Number) || at_kind_spec(*old(p), SyntaxKind::Dice),
    ensures
        gram_step(*old(p), *final(p)),
        final(p).source.cursor == old(p).sig() + 1,
        cm.pos == old(p).events@.len(),
        final(p).events@[cm.pos as int] == (Event::StartNode {
            kind: SyntaxKind::Literal,
            forward_parent: None,
        }),
        cm.pos < final(p).events@.len(),
        ({
            let s = spec_token_node(old(p).toks(), g_of(*old(p)), SyntaxKind::Literal);
            g_of(*final(p)) == s.0 && cm.pos as int == s.1
        }),
{
    let m = p.start();
    p.bump();
    m.complete(p, SyntaxKind::Literal)
}

/// An identifier becomes a `VariableRef` node around its token.
fn variable_ref(p: &mut Parser) -> (cm: CompletedMarker)
    requires
        old(p).inv(),
        at_kind_spec(*old(p), SyntaxKind::Ident),
    ensures
        gram_step(*old(p), *final(p)),
        final(p).source.cursor == old(p).sig() + 1,
        cm.pos == old(p).events@.len(),
        final(p).events@[cm.pos as int] == (Event::StartNode {
            kind: SyntaxKind::VariableRef,
            forward_parent: None,
        }),
        cm.pos < final(p).events@.len(),
        ({
            let s = spec_token_node(old(p).toks(), g_of(*old(p)), SyntaxKind::VariableRef);
            g_of(*final(p)) == s.0 && cm.pos as int == s.1
        }),
{
    let m = p.start();
    p.bump();
    m.complete(p, SyntaxKind::VariableRef)
}

/// Unary minus: the operand is parsed with a binding power above every
/// binary operator, so `-1 + 2` negates only the `1`.
fn prefix_expr(p: &mut Parser) -> (cm: CompletedMarker)
    requires
        old(p).inv(),
        at_kind_spec(*old(p), SyntaxKind::Minus),
    ensures
        gram_step(*old(p), *final(p)),
        final(p).source.cursor > old(p).sig(),
        cm.pos == old(p).events@.len(),
        final(p).events@[cm.pos as int] == (Event::StartNode {
            kind: SyntaxKind::PrefixExpr,
            forward_parent: None,
        }),
        cm.pos < final(p).events@.len(),
        ({
            let s = spec_prefix(old(p).toks(), g_of(*old(p)));
            g_of(*final(p)) == s.0 && cm.pos as int == s.1
        }),
    decreases p.toks().len() - p.source.cursor, 0int,
{
    let m = p.start();
    let ghost p1 = *p;
    p.bump();
    let ghost p2 = *p;
    let _operand = expr_binding_power(p, 5);
    let ghost p3 = *p;
    let cm = m.complete(p, SyntaxKind::PrefixExpr);
    proof {
        lemma_accounted_trans(*old(p), p1, p2);
        lemma_accounted_trans(*old(p), p2, p3);
        lemma_accounted_trans(*old(p), p3, *p);
    }
    cm
}

/// A parenthesized expression: `(`, the inner expression at the lowest
/// binding power, and a required `)` whose absence is recorded as a
/// diagnostic without consuming the mismatched token.
fn paren_expr(p: &mut Parser) -> (cm: CompletedMarker)
    requires
        old(p).inv(),
        at_kind_spec(*old(p), SyntaxKind::LParen),
    ensures
        gram_step(*old(p), *final(p)),
        final(p).source.cursor > old(p).sig(),
        cm.pos == old(p).events@.len(),
        final(p).events@[cm.pos as int] == (Event::StartNode {
            kind: SyntaxKind::ParenExpr,
            forward_parent: None,
        }),
        cm.pos < final(p).events@.len(),
        ({
            let s = spec_paren(old(p).toks(), g_of(*old(p)));
            g_of(*final(p)) == s.0 && cm.pos as int == s.1
        }),
    decreases p.toks().len() - p.source.cursor, 0int,
{
    let m = p.start();
    let ghost p1 = *p;
    p.bump();
    let ghost p2 = *p;
    let _inner = expr_binding_power(p, 0);
    let ghost p3 = *p;
    p.expect(SyntaxKind::RParen);
    let ghost p4 = *p;
    let cm = m.complete(p, SyntaxKind::ParenExpr);
    proof {
        lemma_accounted_trans(*old(p), p1, p2);
        lemma_accounted_trans(*old(p), p2, p3);
        lemma_accounted_trans(*old(p), p3, p4);
        lemma_accounted_trans(*old(p), p4, *p);
    }
    cm
}

} // verus!
