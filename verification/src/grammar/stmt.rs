//! Statements: a `let`-binding, or a bare expression.

use super::expr;
use crate::event::Event;
use crate::marker::CompletedMarker;
use crate::parser::{
    at_kind_spec, g_at, g_bump, g_complete, g_expect, g_of, g_peeked, gram_step,
    lemma_accounted_trans, Diagnostic, Parser,
};
use crate::token_kind::Token;
use crate::source::{next_sig, token_kind_view};
use crate::syntax::SyntaxKind;
use vstd::prelude::*;

verus! {

broadcast use vstd::seq::group_seq_axioms;

/// Where the identifier of a `let` definition is looked for: the first
/// significant position after the keyword.
pub open spec fn def_ident_at(p: Parser) -> int {
    next_sig(p.toks(), p.sig() + 1)
}

/// Whether the required identifier is present there.
pub open spec fn def_ident_ok(p: Parser) -> bool {
    def_ident_at(p) < p.toks().len() && token_kind_view(p.toks()[def_ident_at(p)])
        == Ok::<SyntaxKind, ()>(SyntaxKind::Ident)
}

/// Where the `=` of a `let` definition is looked for: right after the
/// identifier when it was present, else at the unconsumed mismatch.
pub open spec fn def_equals_at(p: Parser) -> int {
    if def_ident_ok(p) {
        next_sig(p.toks(), def_ident_at(p) + 1)
    } else {
        def_ident_at(p)
    }
}

/// Whether the required `=` is present there.
pub open spec fn def_equals_ok(p: Parser) -> bool {
    def_equals_at(p) < p.toks().len() && token_kind_view(p.toks()[def_equals_at(p)])
        == Ok::<SyntaxKind, ()>(SyntaxKind::Equals)
}

/// Where the bound expression of a `let` definition begins.
pub open spec fn def_body_at(p: Parser) -> int {
    if def_equals_ok(p) {
        next_sig(p.toks(), def_equals_at(p) + 1)
    } else {
        def_equals_at(p)
    }
}

/// The let-definition rule of the specification-level grammar.
pub open spec fn spec_variable_def(toks: Seq<Token>, st: (int, Seq<Event>, Seq<Diagnostic>)) -> (
    (int, Seq<Event>, Seq<Diagnostic>),
    int,
) {
    let pos = st.1.len() as int;
    let st1 = (st.0, st.1.push(Event::Placeholder), st.2);
    let st2 = g_bump(toks, st1);
    let st3 = g_expect(toks, st2, SyntaxKind::Ident);
    let st4 = g_expect(toks, st3, SyntaxKind::Equals);
    let st5 = super::expr::spec_ebp(toks, st4, 0).0;
    (g_complete(st5, pos, SyntaxKind::VariableDef), pos)
}

/// The statement rule of the specification-level grammar.
pub open spec fn spec_stmt(toks: Seq<Token>, st: (int, Seq<Event>, Seq<Diagnostic>)) -> (
    (int, Seq<Event>, Seq<Diagnostic>),
    Option<int>,
) {
    let stp = g_peeked(toks, st);
    if g_at(toks, st, SyntaxKind::LetKw) {
        let r = spec_variable_def(toks, stp);
        (r.0, Some(r.1))
    } else {
        super::expr::spec_ebp(toks, stp, 0)
    }
}

/// The let-definition rule reads tokens only through their views.
pub proof fn lemma_spec_variable_def_view(
    toks1: Seq<Token>,
    toks2: Seq<Token>,
    st: (int, Seq<Event>, Seq<Diagnostic>),
)
    requires
        crate::source::token_views(toks1) == crate::source::token_views(toks2),
    ensures
        spec_variable_def(toks1, st) == spec_variable_def(toks2, st),
{
    crate::source::lemma_next_sig_view(toks1, toks2, st.0);
    crate::source::lemma_next_sig_ge0(toks1, st.0);
    let st1 = (st.0, st.1.push(Event::Placeholder), st.2);
    let st2 = g_bump(toks1, st1);
    lemma_expect_view(toks1, toks2, st2, SyntaxKind::Ident);
    let st3 = g_expect(toks1, st2, SyntaxKind::Ident);
    lemma_expect_view(toks1, toks2, st3, SyntaxKind::Equals);
    let st4 = g_expect(toks1, st3, SyntaxKind::Equals);
    super::expr::lemma_spec_ebp_views_agree(toks1, toks2, st4, 0);
}

/// Requiring a token reads only the token's view.
proof fn lemma_expect_view(
    toks1: Seq<Token>,
    toks2: Seq<Token>,
    st: (int, Seq<Event>, Seq<Diagnostic>),
    k: SyntaxKind,
)
    requires
        crate::source::token_views(toks1) == crate::source::token_views(toks2),
    ensures
        g_expect(toks1, st, k) == g_expect(toks2, st, k),
{
    crate::source::lemma_next_sig_view(toks1, toks2, st.0);
    crate::source::lemma_next_sig_ge0(toks1, st.0);
    assert(crate::source::token_views(toks1).len() == toks1.len());
    assert(crate::source::token_views(toks2).len() == toks2.len());
    let sig = crate::parser::g_sig(toks1, st);
    if 0 <= sig < toks1.len() {
        assert(crate::source::token_views(toks1)[sig] == toks1[sig]@);
        assert(crate::source::token_views(toks2)[sig] == toks2[sig]@);
    }
}

/// The statement rule reads tokens only through their views.
pub proof fn lemma_spec_stmt_view(
    toks1: Seq<Token>,
    toks2: Seq<Token>,
    st: (int, Seq<Event>, Seq<Diagnostic>),
)
    requires
        crate::source::token_views(toks1) == crate::source::token_views(toks2),
    ensures
        spec_stmt(toks1, st) == spec_stmt(toks2, st),
{
    crate::source::lemma_next_sig_view(toks1, toks2, st.0);
    crate::source::lemma_next_sig_ge0(toks1, st.0);
    assert(crate::source::token_views(toks1).len() == toks1.len());
    assert(crate::source::token_views(toks2).len() == toks2.len());
    let sig = crate::parser::g_sig(toks1, st);
    if 0 <= sig < toks1.len() {
        assert(crate::source::token_views(toks1)[sig] == toks1[sig]@);
        assert(crate::source::token_views(toks2)[sig] == toks2[sig]@);
    }
    let stp = g_peeked(toks1, st);
    if g_at(toks1, st, SyntaxKind::LetKw) {
        lemma_spec_variable_def_view(toks1, toks2, stp);
    } else {
        super::expr::lemma_spec_ebp_views_agree(toks1, toks2, stp, 0);
    }
}

/// Parse one statement.  When the next significant token exists, at least
/// one significant token is always consumed, so the statement loop always
/// makes progress.
pub(crate) fn stmt(p: &mut Parser) -> (r: Option<CompletedMarker>)
    requires
        old(p).inv(),
    ensures
        gram_step(*old(p), *final(p)),
        old(p).sig() < old(p).toks().len() ==> final(p).source.cursor > old(p).sig(),
        at_kind_spec(*old(p), SyntaxKind::LetKw) ==> r is Some && final(p).events@[old(
            p,
        ).events@.len() as int] == (Event::StartNode {
            kind: SyntaxKind::VariableDef,
            forward_parent: None,
        }),
        !at_kind_spec(*old(p), SyntaxKind::LetKw) ==> (r is Some <==> crate::parser::at_expr_start(
            *old(p),
        )),
        ({
            let s = spec_stmt(old(p).toks(), g_of(*old(p)));
            &&& g_of(*final(p)) == s.0
            &&& (r is Some <==> s.1 is Some)
            &&& (r is Some ==> r.unwrap().pos as int == s.1.unwrap())
        }),
    decreases p.toks().len() - p.source.cursor, 4int,
{
    let peeked = p.peek();
    let ghost p1 = *p;
    let r = match peeked {
        Some(Ok(SyntaxKind::LetKw)) => variable_def(p),
        _ => expr::expr(p),
    };
    proof {
        lemma_accounted_trans(*old(p), p1, *p);
    }
    r
}

/// Parse a variable definition: `let`, a required identifier, a required
/// `=`, and the bound expression.  A missing identifier or `=` is recorded
/// as a diagnostic without consuming the mismatched token, and a missing
/// right-hand side hands control straight back to the statement loop, so a
/// dangling `let a =` never swallows the next statement's `let`.
pub(crate) fn variable_def(p: &mut Parser) -> (r: Option<CompletedMarker>)
    requires
        old(p).inv(),
        at_kind_spec(*old(p), SyntaxKind::LetKw),
    ensures
        gram_step(*old(p), *final(p)),
        final(p).source.cursor > old(p).sig(),
        r is Some,
        final(p).events@.len() > old(p).events@.len(),
        final(p).events@[old(p).events@.len() as int] == (Event::StartNode {
            kind: SyntaxKind::VariableDef,
            forward_parent: None,
        }),
        final(p).events@[old(p).events@.len() as int + 1] == Event::AddToken,
        final(p).events@.last() == Event::FinishNode,
        def_ident_ok(*old(p)) ==> final(p).events@[old(p).events@.len() as int + 2]
            == Event::AddToken,
        !def_ident_ok(*old(p)) ==> final(p).errors@[old(p).errors@.len() as int]
            == (Diagnostic {
            expected: Some(SyntaxKind::Ident),
            at_token: def_ident_at(*old(p)) as usize,
        }),
        def_ident_ok(*old(p)) && def_equals_ok(*old(p)) ==> final(p).events@[old(
            p,
        ).events@.len() as int + 3] == Event::AddToken,
        !def_ident_ok(*old(p)) && def_equals_ok(*old(p)) ==> final(p).events@[old(
            p,
        ).events@.len() as int + 2] == Event::AddToken,
        def_ident_ok(*old(p)) && !def_equals_ok(*old(p)) ==> final(p).errors@[old(
            p,
        ).errors@.len() as int] == (Diagnostic {
            expected: Some(SyntaxKind::Equals),
            at_token: def_equals_at(*old(p)) as usize,
        }),
        !def_ident_ok(*old(p)) && !def_equals_ok(*old(p)) ==> final(p).errors@[old(
            p,
        ).errors@.len() as int + 1] == (Diagnostic {
            expected: Some(SyntaxKind::Equals),
            at_token: def_equals_at(*old(p)) as usize,
        }),
        (def_body_at(*old(p)) < old(p).toks().len() && token_kind_view(
            old(p).toks()[def_body_at(*old(p))],
        ) != Ok::<SyntaxKind, ()>(SyntaxKind::LetKw)) ==> final(p).source.cursor > def_body_at(
            *old(p),
        ),
        (def_body_at(*old(p)) == old(p).toks().len() || token_kind_view(
            old(p).toks()[def_body_at(*old(p))],
        ) == Ok::<SyntaxKind, ()>(SyntaxKind::LetKw)) ==> final(p).source.cursor == def_body_at(
            *old(p),
        ),
        ({
            let s = spec_variable_def(old(p).toks(), g_of(*old(p)));
            g_of(*final(p)) == s.0 && r.unwrap().pos as int == s.1
        }),
    decreases p.toks().len() - p.source.cursor, 1int,
{
    proof {
        crate::source::lemma_next_sig(old(p).toks(), old(p).source.cursor as int);
        crate::source::lemma_next_sig(old(p).toks(), old(p).sig() + 1);
    }
    let m = p.start();
    let ghost p1 = *p;
    p.bump();
    let ghost p2 = *p;
    proof {
        assert(p2.sig() == def_ident_at(*old(p)));
    }
    p.expect(SyntaxKind::Ident);
    let ghost p3 = *p;
    proof {
        if def_ident_ok(*old(p)) {
            crate::source::lemma_next_sig(old(p).toks(), def_ident_at(*old(p)) + 1);
        }
        assert(p3.sig() == def_equals_at(*old(p)));
    }
    p.expect(SyntaxKind::Equals);
    let ghost p4 = *p;
    proof {
        if def_equals_ok(*old(p)) {
            crate::source::lemma_next_sig(old(p).toks(), def_equals_at(*old(p)) + 1);
        }
        assert(p4.sig() == def_body_at(*old(p)));
    }
    let _rhs = expr::expr(p);
    let ghost p5 = *p;
    let r = Some(m.complete(p, SyntaxKind::VariableDef));
    proof {
        lemma_accounted_trans(*old(p), p1, p2);
        lemma_accounted_trans(*old(p), p2, p3);
        lemma_accounted_trans(*old(p), p3, p4);
        lemma_accounted_trans(*old(p), p4, p5);
        lemma_accounted_trans(*old(p), p5, *p);
    }
    r
}

} // verus!
