//! The parse session: a trivia-skipping cursor, the event log, and the
//! recorded diagnostics, threaded through the grammar.

use crate::event::{count_add, lemma_count_add_push, Event};
use crate::grammar;
use crate::sink::Sink;
use crate::source::{
    lemma_sig_count_gap, lemma_sig_count_split, lemma_sig_count_to_sig, next_sig, sig_count,
    token_kind_view, Source,
};
use crate::syntax::SyntaxKind;
use crate::token_kind::{lex, lex_spec, lemma_lex_spec_text, Token};
use crate::tree::{
    leaves_of_models, lemma_leaf_texts, lemma_leaves_of, node_leaves, node_text, SyntaxNode,
};
use crate::marker::Marker;
use vstd::prelude::*;

verus! {

broadcast use vstd::seq::group_seq_axioms;

/// A recorded syntax error: an expected token that was absent (`expected`
/// set) or a token that could not begin any construct (`expected` empty),
/// at the given index of the token sequence.  Diagnostics never stop the
/// parse: a tree is always produced.
///
/// One form is reserved: `expected` empty with `at_token` just past the
/// last token reports that the finished event log still held a reserved
/// slot — a marker that was started and never completed, a programming
/// error of a grammar rule.  No grammar rule emits that form for input
/// text.
#[derive(Debug, Copy, Clone)]
pub struct Diagnostic {
    pub expected: Option<SyntaxKind>,
    pub at_token: usize,
}

/// Only-grow discipline of the event log: a grammar rule appends entries
/// and finalizes slots it reserved itself, but never touches entries that
/// existed when it was entered.
pub open spec fn events_preserved(pre: Seq<Event>, post: Seq<Event>) -> bool {
    &&& post.len() >= pre.len()
    &&& forall|i: int| 0 <= i < pre.len() ==> post[i] == pre[i]
}

/// Whether the next significant token of `p` has classification `k`.
pub open spec fn at_kind_spec(p: Parser, k: SyntaxKind) -> bool {
    p.sig() < p.toks().len() && token_kind_view(p.toks()[p.sig()]) == Ok::<SyntaxKind, ()>(k)
}

/// Whether the next significant token can begin an expression.
pub open spec fn at_expr_start(p: Parser) -> bool {
    ||| at_kind_spec(p, SyntaxKind::Number)
    ||| at_kind_spec(p, SyntaxKind::Dice)
    ||| at_kind_spec(p, SyntaxKind::Ident)
    ||| at_kind_spec(p, SyntaxKind::Minus)
    ||| at_kind_spec(p, SyntaxKind::LParen)
}

/// Leaf-event accounting: a step logs exactly one `AddToken` for each
/// significant token it consumes — no token is dropped from the log and
/// none is logged twice.
pub open spec fn log_accounted(pre: Parser, post: Parser) -> bool {
    count_add(post.events@) == count_add(pre.events@) + sig_count(
        pre.toks(),
        pre.source.cursor as int,
        post.source.cursor as int,
    )
}

/// Diagnostics are only appended, and each new one points into the token
/// sequence (or just past it, for end-of-input).
pub open spec fn errors_extended(pre: Parser, post: Parser) -> bool {
    &&& post.errors@.len() >= pre.errors@.len()
    &&& forall|k: int| 0 <= k < pre.errors@.len() ==> post.errors@[k] == pre.errors@[k]
    &&& forall|k: int|
        pre.errors@.len() <= k < post.errors@.len() ==> post.errors@[k].at_token
            <= pre.toks().len()
}

/// What every grammar rule guarantees: the token sequence is untouched, the
/// cursor only travels forward, the part of the event log it did not own is
/// intact, every significant token it consumed is logged as exactly one
/// leaf event, and diagnostics are only appended, in bounds.
pub open spec fn gram_step(pre: Parser, post: Parser) -> bool {
    &&& post.inv()
    &&& post.toks() == pre.toks()
    &&& post.source.cursor >= pre.source.cursor
    &&& events_preserved(pre.events@, post.events@)
    &&& log_accounted(pre, post)
    &&& errors_extended(pre, post)
}

/// A grammar state as the specification-level grammar transforms it: the
/// raw cursor, the event log and the diagnostics.
pub open spec fn g_of(p: Parser) -> (int, Seq<Event>, Seq<Diagnostic>) {
    (p.source.cursor as int, p.events@, p.errors@)
}

/// The next significant position of a grammar state.
pub open spec fn g_sig(toks: Seq<Token>, st: (int, Seq<Event>, Seq<Diagnostic>)) -> int {
    next_sig(toks, st.0)
}

/// Whether the next significant token has classification `k`.
pub open spec fn g_at(
    toks: Seq<Token>,
    st: (int, Seq<Event>, Seq<Diagnostic>),
    k: SyntaxKind,
) -> bool {
    g_sig(toks, st) < toks.len() && token_kind_view(toks[g_sig(toks, st)]) == Ok::<
        SyntaxKind,
        (),
    >(k)
}

/// Looking ahead moves the cursor to the next significant token.
pub open spec fn g_peeked(toks: Seq<Token>, st: (int, Seq<Event>, Seq<Diagnostic>)) -> (
    int,
    Seq<Event>,
    Seq<Diagnostic>,
) {
    (g_sig(toks, st), st.1, st.2)
}

/// Consuming the next significant token logs one leaf event.
pub open spec fn g_bump(toks: Seq<Token>, st: (int, Seq<Event>, Seq<Diagnostic>)) -> (
    int,
    Seq<Event>,
    Seq<Diagnostic>,
) {
    (g_sig(toks, st) + 1, st.1.push(Event::AddToken), st.2)
}

/// Requiring a token: consume it when present, else record the diagnostic
/// without consuming.
pub open spec fn g_expect(
    toks: Seq<Token>,
    st: (int, Seq<Event>, Seq<Diagnostic>),
    k: SyntaxKind,
) -> (int, Seq<Event>, Seq<Diagnostic>) {
    if g_at(toks, st, k) {
        g_bump(toks, st)
    } else {
        (
            g_sig(toks, st),
            st.1,
            st.2.push(Diagnostic { expected: Some(k), at_token: g_sig(toks, st) as usize }),
        )
    }
}

/// Reporting a token that can begin nothing: a diagnostic, and — outside
/// the recovery set — an error node around the consumed token.
pub open spec fn g_error(toks: Seq<Token>, st: (int, Seq<Event>, Seq<Diagnostic>)) -> (
    int,
    Seq<Event>,
    Seq<Diagnostic>,
) {
    let sig = g_sig(toks, st);
    let errs = st.2.push(Diagnostic { expected: None, at_token: sig as usize });
    if sig < toks.len() && token_kind_view(toks[sig]) != Ok::<SyntaxKind, ()>(
        SyntaxKind::LetKw,
    ) {
        (
            sig + 1,
            st.1 + seq![
                Event::StartNode { kind: SyntaxKind::Error, forward_parent: None },
                Event::AddToken,
                Event::FinishNode,
            ],
            errs,
        )
    } else {
        (sig, st.1, errs)
    }
}

/// Completing a marker fills its reserved slot and appends the finish
/// event.
pub open spec fn g_complete(
    st: (int, Seq<Event>, Seq<Diagnostic>),
    pos: int,
    kind: SyntaxKind,
) -> (int, Seq<Event>, Seq<Diagnostic>) {
    (
        st.0,
        st.1.update(pos, Event::StartNode { kind, forward_parent: None }).push(
            Event::FinishNode,
        ),
        st.2,
    )
}

/// Preceding a completed node: reserve a new slot and point the node's
/// slot forward at it.
pub open spec fn g_precede(st: (int, Seq<Event>, Seq<Diagnostic>), pos: int) -> (
    (int, Seq<Event>, Seq<Diagnostic>),
    int,
) {
    (
        (
            st.0,
            st.1.push(Event::Placeholder).update(
                pos,
                Event::StartNode {
                    kind: crate::event::start_kind(st.1[pos]),
                    forward_parent: Some((st.1.len() - pos) as usize),
                },
            ),
            st.2,
        ),
        st.1.len() as int,
    )
}

/// Chaining two accounted steps is an accounted step.
pub proof fn lemma_accounted_trans(a: Parser, b: Parser, c: Parser)
    requires
        a.toks() == b.toks(),
        b.toks() == c.toks(),
        a.source.cursor <= b.source.cursor,
        b.source.cursor <= c.source.cursor,
        log_accounted(a, b),
        log_accounted(b, c),
    ensures
        log_accounted(a, c),
{
    lemma_sig_count_split(
        a.toks(),
        a.source.cursor as int,
        b.source.cursor as int,
        c.source.cursor as int,
    );
}

/// One parse invocation's private state.
pub struct Parser {
    pub source: Source,
    pub events: Vec<Event>,
    pub errors: Vec<Diagnostic>,
}

impl Parser {
    pub open spec fn inv(self) -> bool {
        self.source.wf()
    }

    /// The token sequence being parsed.
    pub open spec fn toks(self) -> Seq<Token> {
        self.source.tokens@
    }

    /// The index of the next significant token.
    pub open spec fn sig(self) -> int {
        self.source.sig_cursor()
    }

    pub fn new(tokens: Vec<Token>) -> (p: Parser)
        ensures
            p.inv(),
            p.toks() == tokens@,
            p.source.cursor == 0,
            p.events@ =~= Seq::<Event>::empty(),
            p.errors@ =~= Seq::<Diagnostic>::empty(),
    {
        Parser { source: Source::new(tokens), events: Vec::new(), errors: Vec::new() }
    }

    /// Reserve a slot in the event log for a node that begins here; the
    /// returned marker must later be completed.
    pub fn start(&mut self) -> (m: Marker)
        requires
            old(self).inv(),
        ensures
            final(self).inv(),
            final(self).events@ == old(self).events@.push(Event::Placeholder),
            final(self).source == old(self).source,
            final(self).errors == old(self).errors,
            m.pos == old(self).events@.len(),
            gram_step(*old(self), *final(self)),
    {
        let pos = self.events.len();
        self.events.push(Event::Placeholder);
        proof {
            lemma_count_add_push(old(self).events@, Event::Placeholder);
            assert(sig_count(self.toks(), self.source.cursor as int, self.source.cursor as int)
                == 0);
        }
        Marker::new(pos)
    }

    /// The classification of the next significant token, or `None` at the
    /// end of the input.
    pub fn peek(&mut self) -> (r: Option<Result<SyntaxKind, ()>>)
        requires
            old(self).inv(),
        ensures
            final(self).inv(),
            final(self).toks() == old(self).toks(),
            final(self).source.cursor == old(self).sig(),
            final(self).sig() == old(self).sig(),
            final(self).events == old(self).events,
            final(self).errors == old(self).errors,
            old(self).source.cursor <= old(self).sig() <= old(self).toks().len(),
            old(self).sig() < old(self).toks().len() ==> r == Some(
                token_kind_view(old(self).toks()[old(self).sig()]),
            ),
            old(self).sig() == old(self).toks().len() ==> r is None,
            gram_step(*old(self), *final(self)),
    {
        proof {
            lemma_sig_count_gap(old(self).toks(), old(self).source.cursor as int);
        }
        self.source.peek_kind()
    }

    /// Whether the next significant token has the given classification.
    pub fn at(&mut self, kind: SyntaxKind) -> (b: bool)
        requires
            old(self).inv(),
        ensures
            final(self).inv(),
            final(self).toks() == old(self).toks(),
            final(self).source.cursor == old(self).sig(),
            final(self).sig() == old(self).sig(),
            final(self).events == old(self).events,
            final(self).errors == old(self).errors,
            old(self).source.cursor <= old(self).sig() <= old(self).toks().len(),
            b == (old(self).sig() < old(self).toks().len() && token_kind_view(
                old(self).toks()[old(self).sig()],
            ) == Ok::<SyntaxKind, ()>(kind)),
            gram_step(*old(self), *final(self)),
    {
        match self.peek() {
            Some(Ok(k)) => k == kind,
            _ => false,
        }
    }

    /// Whether the whole input has been consumed.
    pub fn at_end(&mut self) -> (b: bool)
        requires
            old(self).inv(),
        ensures
            final(self).inv(),
            final(self).toks() == old(self).toks(),
            final(self).source.cursor == old(self).sig(),
            final(self).sig() == old(self).sig(),
            final(self).events == old(self).events,
            final(self).errors == old(self).errors,
            old(self).source.cursor <= old(self).sig() <= old(self).toks().len(),
            b == (old(self).sig() == old(self).toks().len()),
            gram_step(*old(self), *final(self)),
    {
        match self.peek() {
            None => true,
            Some(_) => false,
        }
    }

    /// Consume the next significant token and log it as a leaf.
    pub fn bump(&mut self)
        requires
            old(self).inv(),
            old(self).sig() < old(self).toks().len(),
        ensures
            final(self).inv(),
            final(self).toks() == old(self).toks(),
            final(self).source.cursor == old(self).sig() + 1,
            final(self).source.cursor > old(self).source.cursor,
            final(self).events@ == old(self).events@.push(Event::AddToken),
            final(self).errors == old(self).errors,
            gram_step(*old(self), *final(self)),
    {
        let _taken = self.source.next_token();
        self.events.push(Event::AddToken);
        proof {
            lemma_count_add_push(old(self).events@, Event::AddToken);
            lemma_sig_count_to_sig(old(self).toks(), old(self).source.cursor as int);
        }
    }

    /// Require a token of the given classification: consume it when
    /// present, otherwise record a diagnostic and leave the token for the
    /// caller's next rule to retry.
    pub fn expect(&mut self, kind: SyntaxKind)
        requires
            old(self).inv(),
        ensures
            final(self).inv(),
            final(self).toks() == old(self).toks(),
            old(self).source.cursor <= old(self).sig() <= old(self).toks().len(),
            final(self).source.cursor >= old(self).source.cursor,
            at_kind_spec(*old(self), kind) ==> final(self).source.cursor == old(self).sig() + 1
                && final(self).events@ == old(self).events@.push(Event::AddToken)
                && final(self).errors == old(self).errors,
            !at_kind_spec(*old(self), kind) ==> final(self).source.cursor == old(self).sig()
                && final(self).events == old(self).events
                && final(self).errors@ == old(self).errors@.push(
                Diagnostic { expected: Some(kind), at_token: old(self).sig() as usize },
            ),
            gram_step(*old(self), *final(self)),
    {
        let ghost p0 = *self;
        if self.at(kind) {
            let ghost p1 = *self;
            self.bump();
            proof {
                lemma_accounted_trans(p0, p1, *self);
            }
        } else {
            let at_token = self.source.cursor;
            self.errors.push(Diagnostic { expected: Some(kind), at_token });
        }
    }

    /// Report a token that cannot begin any construct.  Unless the parse is
    /// at the end of the input or at a statement-starting keyword (the
    /// recovery set), the offending token is wrapped in an error node, so
    /// the parse always makes progress and the tree stays well shaped.
    pub fn error(&mut self)
        requires
            old(self).inv(),
        ensures
            final(self).inv(),
            final(self).toks() == old(self).toks(),
            old(self).source.cursor <= old(self).sig() <= old(self).toks().len(),
            final(self).source.cursor >= old(self).source.cursor,
            events_preserved(old(self).events@, final(self).events@),
            final(self).errors@ == old(self).errors@.push(
                Diagnostic { expected: None, at_token: old(self).sig() as usize },
            ),
            (old(self).sig() == old(self).toks().len() || at_kind_spec(
                *old(self),
                SyntaxKind::LetKw,
            )) ==> final(self).source.cursor == old(self).sig()
                && final(self).events == old(self).events,
            (old(self).sig() < old(self).toks().len() && !at_kind_spec(
                *old(self),
                SyntaxKind::LetKw,
            )) ==> final(self).source.cursor == old(self).sig() + 1
                && final(self).events@ == old(self).events@ + seq![
                Event::StartNode { kind: SyntaxKind::Error, forward_parent: None },
                Event::AddToken,
                Event::FinishNode,
            ],
            gram_step(*old(self), *final(self)),
    {
        let peeked = self.peek();
        let at_token = self.source.cursor;
        self.errors.push(Diagnostic { expected: None, at_token });
        let ghost p1 = *self;
        let wrap = match peeked {
            Some(Ok(SyntaxKind::LetKw)) => false,
            Some(_) => true,
            None => false,
        };
        if wrap {
            let m = self.start();
            let ghost p2 = *self;
            self.bump();
            let ghost p3 = *self;
            let _completed = m.complete(self, SyntaxKind::Error);
            proof {
                lemma_accounted_trans(p1, p2, p3);
                lemma_accounted_trans(p1, p3, *self);
                lemma_accounted_trans(*old(self), p1, *self);
                assert(self.events@ =~= old(self).events@ + seq![
                    Event::StartNode { kind: SyntaxKind::Error, forward_parent: None },
                    Event::AddToken,
                    Event::FinishNode,
                ]);
            }
        } else {
            proof {
                assert(sig_count(p1.toks(), p1.source.cursor as int, p1.source.cursor as int)
                    == 0);
                lemma_accounted_trans(*old(self), p1, *self);
            }
        }
    }
}

/// The result of a parse: the syntax tree and the diagnostics gathered on
/// the way.  The tree is immutable from here on.
pub struct Parse {
    pub root: SyntaxNode,
    pub errors: Vec<Diagnostic>,
}

impl Parse {
    /// The root node of the tree.
    pub fn syntax(&self) -> (n: &SyntaxNode)
        ensures
            n == &self.root,
    {
        &self.root
    }

    /// The textual debug rendering of the tree: each node as its category
    /// and byte range, each leaf additionally with its quoted text.
    pub fn debug_tree(&self) -> (r: String)
        requires
            crate::render::byte_len(node_text(self.root)) <= usize::MAX,
        ensures
            r@ == crate::render::render_node_spec(self.root, 0, 0),
    {
        let mut out = String::new();
        let _end = crate::render::render_node(&self.root, 0, 0, &mut out);
        proof {
            assert(Seq::<char>::empty() + crate::render::render_node_spec(self.root, 0, 0)
                =~= crate::render::render_node_spec(self.root, 0, 0));
        }
        out
    }
}

/// Parse a whole input into a lossless syntax tree.
///
/// The tree's leaves are exactly the tokens of the input, in order, trivia
/// included; concatenating their texts in tree order reproduces the input
/// exactly.  The tree's full shape is a function of the input alone: the
/// tokens are `lex_spec` of the input, `Parser::parse` returns exactly the
/// event log of `spec_root` over those tokens, `Sink::finish` returns
/// exactly the tree `finish_pre` builds from that log, and the final
/// clause states the composition for every token sequence with those
/// views — so two parses of equal inputs yield structurally identical
/// trees.
pub fn parse(input: &str) -> (p: Parse)
    ensures
        node_leaves(p.root) == leaves_of_models(lex_spec(input@)),
        node_text(p.root) == input@,
        crate::render::byte_len(node_text(p.root)) <= usize::MAX,
        p.root.kind == SyntaxKind::Root,
        forall|k: int| 0 <= k < p.errors@.len() ==> p.errors@[k].at_token <= lex_spec(input@).len(),
        input@.len() == 0 ==> p.root.children@.len() == 0 && p.errors@.len() == 0,
        forall|ts: Seq<Token>|
            #[trigger] crate::source::token_views(ts) == lex_spec(input@) ==> crate::tree::node_pre(
                p.root,
            ) == crate::sink::finish_pre(
                grammar::spec_root(
                    ts,
                    (0int, Seq::<Event>::empty(), Seq::<Diagnostic>::empty()),
                ).0.1,
                ts,
            ),
{
    let _input_bytes: usize = input.as_bytes().len();
    let tokens = lex(input);
    let ghost toks = tokens@;
    let parser = Parser::new(tokens);
    let ghost pst = g_of(parser);
    let (tokens, events, errors) = parser.parse();
    let mut errors = errors;
    // A slot still reserved in the finished log means a marker was started
    // and never completed: a programming error of a grammar rule, surfaced
    // as a diagnostic just past the last token rather than ignored.
    let mut open_marker: bool = false;
    let mut i: usize = 0;
    while i < events.len()
        invariant
            i <= events@.len(),
            open_marker == (exists|j: int| 0 <= j < i && events@[j] is Placeholder),
        decreases events@.len() - i,
    {
        if matches!(events[i], Event::Placeholder) {
            open_marker = true;
        }
        i += 1;
    }
    if open_marker {
        let at_token = tokens.len();
        errors.push(Diagnostic { expected: None, at_token });
    }
    let sink = Sink::new(tokens, events);
    let root = sink.finish();
    proof {
        if input@.len() == 0 {
            assert(lex_spec(input@) =~= Seq::<(Result<crate::token_kind::TokenKind, ()>, Seq<
                char,
            >)>::empty());
            assert(toks.map_values(|t: Token| t@).len() == 0);
            assert(toks =~= Seq::<Token>::empty());
            assert(pst == (0int, Seq::<Event>::empty(), Seq::<Diagnostic>::empty()));
            let st1 = (0int, Seq::<Event>::empty().push(Event::Placeholder), Seq::<
                Diagnostic,
            >::empty());
            assert(next_sig(toks, 0) == 0);
            assert(grammar::spec_stmts(toks, st1) == g_peeked(toks, st1));
            let rootlog = grammar::spec_root(toks, pst).0.1;
            assert(rootlog =~= seq![
                Event::StartNode { kind: SyntaxKind::Root, forward_parent: None },
                Event::FinishNode,
            ]);
            assert(events@ == rootlog);
            assert(errors@ =~= Seq::<Diagnostic>::empty());
            assert(!(events@[0] is Placeholder) && !(events@[1] is Placeholder));
            let res = crate::sink::resolve_spec(events@, 0);
            let neutral = events@.update(0, Event::Placeholder);
            assert(crate::sink::chain_walk(neutral, 0, None, seq![SyntaxKind::Root]) == (
                neutral,
                seq![SyntaxKind::Root],
            ));
            assert(seq![SyntaxKind::Root].drop_last() =~= Seq::<SyntaxKind>::empty());
            assert(crate::sink::emit_opens(Seq::<SyntaxKind>::empty()) =~= Seq::<
                crate::sink::ResolvedEvent,
            >::empty());
            assert(crate::sink::emit_opens(seq![SyntaxKind::Root]) =~= seq![
                crate::sink::ResolvedEvent::StartNode(SyntaxKind::Root),
            ]);
            let neutral2 = neutral.update(1, Event::Placeholder);
            assert(crate::sink::resolve_spec(neutral2, 2) =~= Seq::<
                crate::sink::ResolvedEvent,
            >::empty());
            assert(crate::sink::resolve_spec(neutral, 1) =~= seq![
                crate::sink::ResolvedEvent::FinishNode,
            ]);
            assert(res =~= seq![
                crate::sink::ResolvedEvent::StartNode(SyntaxKind::Root),
                crate::sink::ResolvedEvent::FinishNode,
            ]);
            let f0 = Seq::<(SyntaxKind, Seq<crate::tree::PreEvent>)>::empty();
            let f1 = f0.push((SyntaxKind::Root, Seq::<crate::tree::PreEvent>::empty()));
            assert(crate::sink::eat_trivia_pre(f1, toks, 0) == (f1, 0int));
            assert(crate::sink::fold_pre(f1) == f1);
            assert(crate::sink::replay_pre(res, 2, toks, f1, 0) == (f1, 0int));
            assert(crate::sink::replay_pre(res, 1, toks, f1, 0) == (f1, 0int));
            assert(crate::sink::eat_trivia_pre(f0, toks, 0) == (f0, 0int));
            assert(crate::sink::replay_pre(res, 0, toks, f0, 0) == (f1, 0int));
            assert(crate::sink::drain_pre(f1, toks, 0) == f1);
            assert(crate::sink::fold_all_pre(f1) == f1);
            assert(crate::sink::finish_pre(events@, toks) =~= seq![
                crate::tree::PreEvent::Open(SyntaxKind::Root),
                crate::tree::PreEvent::Close,
            ]);
            assert(crate::tree::node_pre(root).len() == 2);
            crate::tree::lemma_prefix_pre_ge(root, root.children@.len() as int);
            assert(root.children@.len() == 0);
        }
        let ms = lex_spec(input@);
        assert(toks.map_values(|t: Token| t@) == ms);
        assert(ms.len() == toks.len());
        assert(crate::source::token_views(toks) =~= ms);
        let st0 = (0int, Seq::<Event>::empty(), Seq::<Diagnostic>::empty());
        assert(pst == st0);
        assert forall|ts: Seq<Token>|
            #[trigger] crate::source::token_views(ts) == lex_spec(input@) implies crate::tree::node_pre(
            root,
        ) == crate::sink::finish_pre(grammar::spec_root(ts, st0).0.1, ts) by {
            grammar::lemma_spec_root_view(toks, ts, st0);
            crate::sink::lemma_finish_pre_view(events@, toks, ts);
            assert(events@ == grammar::spec_root(toks, st0).0.1);
        }
        lemma_leaves_of(toks);
        assert(node_leaves(root) == leaves_of_models(ms));
        lemma_lex_spec_text(input@);
        lemma_leaf_texts(ms);
    }
    Parse { root, errors }
}

impl Parser {
    /// Run the grammar over the whole input and hand back the token
    /// sequence, the finished event log, and the diagnostics.
    pub fn parse(self) -> (r: (Vec<Token>, Vec<Event>, Vec<Diagnostic>))
        requires
            self.inv(),
        ensures
            r.0@ == self.toks(),
            self.events@.len() == 0 ==> r.1@.len() > 0 && r.1@[0] == (Event::StartNode {
                kind: SyntaxKind::Root,
                forward_parent: None,
            }),
            r.1@.len() > 0 && r.1@.last() == Event::FinishNode,
            self.events@.len() == 0 && self.source.cursor == 0 ==> count_add(r.1@) == sig_count(
                self.toks(),
                0,
                self.toks().len() as int,
            ),
            self.errors@.len() == 0 ==> forall|k: int|
                0 <= k < r.2@.len() ==> r.2@[k].at_token <= self.toks().len(),
            ({
                let s = grammar::spec_root(self.toks(), g_of(self));
                r.1@ == s.0.1 && r.2@ == s.0.2
            }),
    {
        let mut this = self;
        let _root = grammar::root(&mut this);
        proof {
            if self.events@.len() == 0 && self.source.cursor == 0 {
                assert(count_add(self.events@) == 0);
                lemma_sig_count_gap(self.toks(), this.source.cursor as int);
                lemma_sig_count_split(
                    self.toks(),
                    0,
                    this.source.cursor as int,
                    self.toks().len() as int,
                );
            }
        }
        (this.source.tokens, this.events, this.errors)
    }
}

} // verus!
