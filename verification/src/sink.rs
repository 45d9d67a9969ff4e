//! The sink: a single linear replay of the event log against the full,
//! trivia-inclusive token sequence, producing the immutable tree.
//!
//! Replay happens in two passes.  The first pass resolves forward parents:
//! on reaching a start event it walks the chain of forward offsets,
//! collecting the categories of every retroactively discovered ancestor
//! (outermost last), neutralizes the visited entries so no entry is used
//! twice, and emits the opens outermost first.  The second pass folds the
//! resolved events over a stack of nodes under construction, attaching
//! every pending trivia token after each event so that whitespace and
//! comments land exactly where they occurred.
//!
//! The second pass consumes every token of the sequence exactly once, in
//! order, whatever the event log holds: the tree's leaves are always the
//! full token sequence.  That unconditional guarantee is the round-trip
//! law of the parser.  Both passes are specified exactly: `resolve_spec`
//! and `finish_pre` give the resolved event list and the produced tree's
//! full serialization as functions of the log and the tokens, and the
//! executable code is proved to compute them.

use crate::event::{start_fp, start_kind, Event};
use crate::source::token_is_trivia;
use crate::syntax::kind_of_token;
use crate::syntax::SyntaxKind;
use crate::token_kind::Token;
use crate::tree::{
    elem_leaves, elem_pre, leaves_of_tokens, lemma_node_leaves_push, lemma_prefix_pre_push,
    node_leaves, node_pre, prefix_pre, token_leaf, PreEvent, SyntaxElement, SyntaxNode,
    SyntaxToken,
};
use vstd::pervasive::VecAdditionalExecFns;
use vstd::prelude::*;

verus! {

broadcast use vstd::seq::group_seq_axioms;

/// An event with every forward parent already resolved.
#[derive(Debug, Copy, Clone)]
pub enum ResolvedEvent {
    StartNode(SyntaxKind),
    AddToken,
    FinishNode,
}

/// What the forward-parent chain walk yields, starting at `j` with pending
/// offset `fp` and the categories collected so far: the log with every
/// visited chain entry neutralized, and the collected categories, the
/// innermost first.  A missing, zero or out-of-range offset, or one that
/// does not land on a start event, ends the chain.
pub open spec fn chain_walk(
    events: Seq<Event>,
    j: int,
    fp: Option<usize>,
    kinds: Seq<SyntaxKind>,
) -> (Seq<Event>, Seq<SyntaxKind>)
    decreases events.len() - j,
{
    match fp {
        Option::None => (events, kinds),
        Option::Some(off) => {
            if off < 1 || j < 0 || off > events.len() - 1 - j {
                (events, kinds)
            } else {
                match events[j + off] {
                    Event::StartNode { kind, forward_parent } => chain_walk(
                        events.update(j + off, Event::Placeholder),
                        j + off,
                        forward_parent,
                        kinds.push(kind),
                    ),
                    _ => (events, kinds),
                }
            }
        },
    }
}

/// The chain walk only neutralizes entries; the log keeps its length.
pub proof fn lemma_chain_walk_len(
    events: Seq<Event>,
    j: int,
    fp: Option<usize>,
    kinds: Seq<SyntaxKind>,
)
    ensures
        chain_walk(events, j, fp, kinds).0.len() == events.len(),
    decreases events.len() - j,
{
    match fp {
        Option::None => {},
        Option::Some(off) => {
            if off < 1 || j < 0 || off > events.len() - 1 - j {
            } else {
                match events[j + off] {
                    Event::StartNode { kind, forward_parent } => {
                        lemma_chain_walk_len(
                            events.update(j + off, Event::Placeholder),
                            j + off,
                            forward_parent,
                            kinds.push(kind),
                        );
                    },
                    _ => {},
                }
            }
        },
    }
}

/// The opens a collected chain emits: the outermost (last collected)
/// category first.
pub open spec fn emit_opens(kinds: Seq<SyntaxKind>) -> Seq<ResolvedEvent>
    decreases kinds.len(),
{
    if kinds.len() == 0 {
        Seq::empty()
    } else {
        seq![ResolvedEvent::StartNode(kinds.last())] + emit_opens(kinds.drop_last())
    }
}

proof fn lemma_emit_opens_peel(kinds: Seq<SyntaxKind>)
    requires
        kinds.len() > 0,
    ensures
        emit_opens(kinds) == emit_opens(kinds.drop_first()) + seq![
            ResolvedEvent::StartNode(kinds.first()),
        ],
    decreases kinds.len(),
{
    if kinds.len() == 1 {
        assert(kinds.drop_last() =~= Seq::<SyntaxKind>::empty());
        assert(kinds.drop_first() =~= Seq::<SyntaxKind>::empty());
        assert(kinds.first() == kinds.last());
        assert(emit_opens(kinds) =~= emit_opens(kinds.drop_first()) + seq![
            ResolvedEvent::StartNode(kinds.first()),
        ]);
    } else {
        lemma_emit_opens_peel(kinds.drop_last());
        assert(kinds.drop_last().drop_first() =~= kinds.drop_first().drop_last());
        assert(kinds.drop_last().first() == kinds.first());
        assert(kinds.drop_first().last() == kinds.last());
        assert(seq![ResolvedEvent::StartNode(kinds.last())] + (emit_opens(
            kinds.drop_first().drop_last(),
        ) + seq![ResolvedEvent::StartNode(kinds.first())]) =~= (seq![
            ResolvedEvent::StartNode(kinds.drop_first().last()),
        ] + emit_opens(kinds.drop_first().drop_last())) + seq![
            ResolvedEvent::StartNode(kinds.first()),
        ]);
    }
}

/// The resolved event list of a log from `idx` on: each start event first
/// walks and neutralizes its forward-parent chain, then the collected
/// categories open outermost-first; leaf and finish events pass through;
/// neutralized entries are skipped, so every entry is used at most once.
pub open spec fn resolve_spec(events: Seq<Event>, idx: int) -> Seq<ResolvedEvent>
    decreases events.len() - idx,
{
    if idx < 0 || idx >= events.len() {
        Seq::empty()
    } else {
        let neutral = events.update(idx, Event::Placeholder);
        match events[idx] {
            Event::StartNode { kind, forward_parent } => {
                proof {
                    lemma_chain_walk_len(neutral, idx, forward_parent, seq![kind]);
                }
                let cw = chain_walk(neutral, idx, forward_parent, seq![kind]);
                emit_opens(cw.1) + resolve_spec(cw.0, idx + 1)
            },
            Event::AddToken => seq![ResolvedEvent::AddToken] + resolve_spec(neutral, idx + 1),
            Event::FinishNode => seq![ResolvedEvent::FinishNode] + resolve_spec(
                neutral,
                idx + 1,
            ),
            Event::Placeholder => resolve_spec(neutral, idx + 1),
        }
    }
}

/// A node under construction, abstractly: its category and the
/// serialization of its children so far.
pub open spec fn frame_of(n: SyntaxNode) -> (SyntaxKind, Seq<PreEvent>) {
    (n.kind, prefix_pre(n, n.children@.len() as int))
}

/// The abstract frames of a stack of nodes under construction.
pub open spec fn frames_of(s: Seq<SyntaxNode>) -> Seq<(SyntaxKind, Seq<PreEvent>)> {
    s.map_values(|n: SyntaxNode| frame_of(n))
}

/// Append serialized content to the frame on top of the stack.
pub open spec fn attach_pre(
    stack: Seq<(SyntaxKind, Seq<PreEvent>)>,
    pe: Seq<PreEvent>,
) -> Seq<(SyntaxKind, Seq<PreEvent>)> {
    if stack.len() == 0 {
        stack
    } else {
        stack.update(stack.len() - 1, (stack.last().0, stack.last().1 + pe))
    }
}

/// The serialization of a finished frame: open, contents, close.
pub open spec fn close_pre(f: (SyntaxKind, Seq<PreEvent>)) -> Seq<PreEvent> {
    seq![PreEvent::Open(f.0)] + f.1 + seq![PreEvent::Close]
}

/// Close the top frame into its parent below.
pub open spec fn fold_pre(stack: Seq<(SyntaxKind, Seq<PreEvent>)>) -> Seq<
    (SyntaxKind, Seq<PreEvent>),
> {
    if stack.len() < 2 {
        stack
    } else {
        attach_pre(stack.drop_last(), close_pre(stack.last()))
    }
}

/// The serialized leaf a token becomes.
pub open spec fn token_pre(t: Token) -> Seq<PreEvent> {
    seq![PreEvent::Leaf(
        match t.kind {
            Ok(k) => kind_of_token(k),
            Err(_) => SyntaxKind::Error,
        },
        t.text@,
    )]
}

/// Attach every pending trivia token to the top frame.
pub open spec fn eat_trivia_pre(
    stack: Seq<(SyntaxKind, Seq<PreEvent>)>,
    tokens: Seq<Token>,
    cursor: int,
) -> (Seq<(SyntaxKind, Seq<PreEvent>)>, int)
    decreases tokens.len() - cursor,
{
    if 0 <= cursor < tokens.len() && stack.len() > 0 && token_is_trivia(tokens[cursor]) {
        eat_trivia_pre(attach_pre(stack, token_pre(tokens[cursor])), tokens, cursor + 1)
    } else {
        (stack, cursor)
    }
}

/// The replay of the resolved events from `i` on: a start event opens a
/// frame, a leaf event attaches the next token, a finish event closes the
/// top frame into its parent; pending trivia is attached after every
/// event.
pub open spec fn replay_pre(
    res: Seq<ResolvedEvent>,
    i: int,
    tokens: Seq<Token>,
    stack: Seq<(SyntaxKind, Seq<PreEvent>)>,
    cursor: int,
) -> (Seq<(SyntaxKind, Seq<PreEvent>)>, int)
    decreases res.len() - i,
{
    if i < 0 || i >= res.len() {
        (stack, cursor)
    } else {
        let stepped = match res[i] {
            ResolvedEvent::StartNode(k) => (stack.push((k, Seq::<PreEvent>::empty())), cursor),
            ResolvedEvent::AddToken => if 0 <= cursor < tokens.len() && stack.len() > 0 {
                (attach_pre(stack, token_pre(tokens[cursor])), cursor + 1)
            } else {
                (stack, cursor)
            },
            ResolvedEvent::FinishNode => (fold_pre(stack), cursor),
        };
        let eaten = eat_trivia_pre(stepped.0, tokens, stepped.1);
        replay_pre(res, i + 1, tokens, eaten.0, eaten.1)
    }
}

/// Attach every remaining token to the top frame.
pub open spec fn drain_pre(
    stack: Seq<(SyntaxKind, Seq<PreEvent>)>,
    tokens: Seq<Token>,
    cursor: int,
) -> Seq<(SyntaxKind, Seq<PreEvent>)>
    decreases tokens.len() - cursor,
{
    if 0 <= cursor < tokens.len() {
        drain_pre(attach_pre(stack, token_pre(tokens[cursor])), tokens, cursor + 1)
    } else {
        stack
    }
}

/// Fold the stack down to a single frame.
pub open spec fn fold_all_pre(stack: Seq<(SyntaxKind, Seq<PreEvent>)>) -> Seq<
    (SyntaxKind, Seq<PreEvent>),
> 
    decreases stack.len(),
{
    if stack.len() >= 2 {
        fold_all_pre(fold_pre(stack))
    } else {
        stack
    }
}

/// The preorder serialization of the tree the sink builds from a log and
/// the token sequence: forward parents resolved, the resolved events
/// replayed over a frame stack, remaining tokens drained, the stack folded
/// to one node.
pub open spec fn finish_pre(events: Seq<Event>, tokens: Seq<Token>) -> Seq<PreEvent> {
    let res = resolve_spec(events, 0);
    let replayed = replay_pre(res, 0, tokens, Seq::empty(), 0);
    let based = if replayed.0.len() == 0 {
        seq![(SyntaxKind::Root, Seq::<PreEvent>::empty())]
    } else {
        replayed.0
    };
    let drained = drain_pre(based, tokens, replayed.1);
    let folded = fold_all_pre(drained);
    close_pre(folded.last())
}

proof fn lemma_token_views_at(toks1: Seq<Token>, toks2: Seq<Token>, i: int)
    requires
        crate::source::token_views(toks1) == crate::source::token_views(toks2),
    ensures
        toks1.len() == toks2.len(),
        0 <= i < toks1.len() ==> token_pre(toks1[i]) == token_pre(toks2[i])
            && token_is_trivia(toks1[i]) == token_is_trivia(toks2[i]),
{
    assert(crate::source::token_views(toks1).len() == toks1.len());
    assert(crate::source::token_views(toks2).len() == toks2.len());
    if 0 <= i < toks1.len() {
        assert(crate::source::token_views(toks1)[i] == toks1[i]@);
        assert(crate::source::token_views(toks2)[i] == toks2[i]@);
    }
}

proof fn lemma_eat_trivia_pre_view(
    toks1: Seq<Token>,
    toks2: Seq<Token>,
    stack: Seq<(SyntaxKind, Seq<PreEvent>)>,
    cursor: int,
)
    requires
        crate::source::token_views(toks1) == crate::source::token_views(toks2),
    ensures
        eat_trivia_pre(stack, toks1, cursor) == eat_trivia_pre(stack, toks2, cursor),
    decreases toks1.len() - cursor,
{
    lemma_token_views_at(toks1, toks2, cursor);
    if 0 <= cursor < toks1.len() && stack.len() > 0 && token_is_trivia(toks1[cursor]) {
        lemma_eat_trivia_pre_view(
            toks1,
            toks2,
            attach_pre(stack, token_pre(toks1[cursor])),
            cursor + 1,
        );
    }
}

proof fn lemma_replay_pre_view(
    res: Seq<ResolvedEvent>,
    i: int,
    toks1: Seq<Token>,
    toks2: Seq<Token>,
    stack: Seq<(SyntaxKind, Seq<PreEvent>)>,
    cursor: int,
)
    requires
        crate::source::token_views(toks1) == crate::source::token_views(toks2),
    ensures
        replay_pre(res, i, toks1, stack, cursor) == replay_pre(res, i, toks2, stack, cursor),
    decreases res.len() - i,
{
    lemma_token_views_at(toks1, toks2, cursor);
    if 0 <= i < res.len() {
        let stepped = match res[i] {
            ResolvedEvent::StartNode(k) => (stack.push((k, Seq::<PreEvent>::empty())), cursor),
            ResolvedEvent::AddToken => if 0 <= cursor < toks1.len() && stack.len() > 0 {
                (attach_pre(stack, token_pre(toks1[cursor])), cursor + 1)
            } else {
                (stack, cursor)
            },
            ResolvedEvent::FinishNode => (fold_pre(stack), cursor),
        };
        lemma_eat_trivia_pre_view(toks1, toks2, stepped.0, stepped.1);
        let eaten = eat_trivia_pre(stepped.0, toks1, stepped.1);
        lemma_replay_pre_view(res, i + 1, toks1, toks2, eaten.0, eaten.1);
    }
}

proof fn lemma_drain_pre_view(
    toks1: Seq<Token>,
    toks2: Seq<Token>,
    stack: Seq<(SyntaxKind, Seq<PreEvent>)>,
    cursor: int,
)
    requires
        crate::source::token_views(toks1) == crate::source::token_views(toks2),
    ensures
        drain_pre(stack, toks1, cursor) == drain_pre(stack, toks2, cursor),
    decreases toks1.len() - cursor,
{
    lemma_token_views_at(toks1, toks2, cursor);
    if 0 <= cursor < toks1.len() {
        lemma_drain_pre_view(
            toks1,
            toks2,
            attach_pre(stack, token_pre(toks1[cursor])),
            cursor + 1,
        );
    }
}

/// The sink reads tokens only through their views: two token sequences
/// with equal views replay one log to the same tree.
pub proof fn lemma_finish_pre_view(events: Seq<Event>, toks1: Seq<Token>, toks2: Seq<Token>)
    requires
        crate::source::token_views(toks1) == crate::source::token_views(toks2),
    ensures
        finish_pre(events, toks1) == finish_pre(events, toks2),
{
    let res = resolve_spec(events, 0);
    lemma_replay_pre_view(
        res,
        0,
        toks1,
        toks2,
        Seq::<(SyntaxKind, Seq<PreEvent>)>::empty(),
        0,
    );
    let replayed = replay_pre(res, 0, toks1, Seq::empty(), 0);
    let based = if replayed.0.len() == 0 {
        seq![(SyntaxKind::Root, Seq::<PreEvent>::empty())]
    } else {
        replayed.0
    };
    lemma_drain_pre_view(toks1, toks2, based, replayed.1);
}

/// The leaves of a stack of nodes under construction, bottom to top.
pub open spec fn stack_leaves(s: Seq<SyntaxNode>) -> Seq<(SyntaxKind, Seq<char>)>
    decreases s.len(),
{
    if s.len() == 0 {
        Seq::empty()
    } else {
        stack_leaves(s.drop_last()) + node_leaves(s.last())
    }
}

/// Append a leaf or finished node to the node on top of the stack; the
/// stack's leaf sequence grows by exactly the element's leaves.
fn attach(stack: &mut Vec<SyntaxNode>, e: SyntaxElement)
    requires
        old(stack)@.len() > 0,
    ensures
        final(stack)@.len() == old(stack)@.len(),
        stack_leaves(final(stack)@) == stack_leaves(old(stack)@) + elem_leaves(e),
        forall|j: int|
            0 <= j < old(stack)@.len() - 1 ==> final(stack)@[j] == old(stack)@[j],
        final(stack)@[old(stack)@.len() - 1].kind == old(stack)@[old(stack)@.len() - 1].kind,
        frames_of(final(stack)@) == attach_pre(frames_of(old(stack)@), elem_pre(e)),
    decreases e, 2int,
{
    let ghost pre_stack = stack@;
    let top_opt = stack.pop();
    match top_opt {
        Some(top) => {
            let ghost pre_top = top;
            let mut top = top;
            top.children.push(e);
            proof {
                lemma_node_leaves_push(pre_top, top, e);
                assert(stack@ =~= pre_stack.drop_last());
            }
            stack.push(top);
            proof {
                assert(stack@.drop_last() =~= pre_stack.drop_last());
                assert(stack@.last() == top);
                assert(stack_leaves(pre_stack.drop_last()) + (node_leaves(pre_top) + elem_leaves(
                    e,
                )) =~= (stack_leaves(pre_stack.drop_last()) + node_leaves(pre_top)) + elem_leaves(
                    e,
                ));
                lemma_prefix_pre_push(pre_top, top, e);
                assert(frame_of(top) == (pre_top.kind, frame_of(pre_top).1 + elem_pre(e)));
                assert(frames_of(stack@) =~= attach_pre(frames_of(pre_stack), elem_pre(e)))
                    by {
                    assert forall|q: int| 0 <= q < stack@.len() implies frames_of(stack@)[q]
                        == attach_pre(frames_of(pre_stack), elem_pre(e))[q] by {
                        if q < stack@.len() - 1 {
                            assert(stack@[q] == pre_stack[q]);
                        } else {
                            assert(frames_of(pre_stack).last() == frame_of(pre_stack.last()));
                        }
                    }
                }
            }
        },
        None => {
            proof {
                assert(false);
            }
        },
    }
}

/// Fold the finished node on top of the stack into its parent below; the
/// stack's leaf sequence is unchanged.
fn fold_top(stack: &mut Vec<SyntaxNode>)
    requires
        old(stack)@.len() >= 2,
    ensures
        final(stack)@.len() == old(stack)@.len() - 1,
        stack_leaves(final(stack)@) == stack_leaves(old(stack)@),
        forall|j: int|
            0 <= j < old(stack)@.len() - 2 ==> final(stack)@[j] == old(stack)@[j],
        final(stack)@[old(stack)@.len() - 2].kind == old(stack)@[old(stack)@.len() - 2].kind,
        frames_of(final(stack)@) == fold_pre(frames_of(old(stack)@)),
{
    let ghost pre_stack = stack@;
    let top_opt = stack.pop();
    match top_opt {
        Some(top) => {
            proof {
                assert(stack@ =~= pre_stack.drop_last());
            }
            attach(stack, SyntaxElement::Node(top));
            proof {
                assert(elem_leaves(SyntaxElement::Node(top)) == node_leaves(top));
                assert(elem_pre(SyntaxElement::Node(top)) == close_pre(frame_of(top)));
                assert(frames_of(pre_stack).drop_last() =~= frames_of(pre_stack.drop_last()));
                assert(frames_of(pre_stack).last() == frame_of(pre_stack.last()));
                assert(fold_pre(frames_of(pre_stack)) == attach_pre(
                    frames_of(pre_stack.drop_last()),
                    close_pre(frame_of(top)),
                ));
            }
        },
        None => {
            proof {
                assert(false);
            }
        },
    }
}

fn token_trivia_exec(t: &Token) -> (b: bool)
    ensures
        b == token_is_trivia(*t),
{
    match t.kind {
        Ok(k) => SyntaxKind::from(k).is_trivia(),
        Err(_) => false,
    }
}

/// The leaf a token becomes.
fn leaf_of(tokens: &Vec<Token>, i: usize) -> (e: SyntaxElement)
    requires
        i < tokens@.len(),
    ensures
        elem_leaves(e) == seq![token_leaf(tokens@[i as int])],
        elem_pre(e) == token_pre(tokens@[i as int]),
{
    let t = &tokens[i];
    let kind = match t.kind {
        Ok(k) => SyntaxKind::from(k),
        Err(_) => SyntaxKind::Error,
    };
    let e = SyntaxElement::Token(SyntaxToken { kind, text: t.text.clone() });
    proof {
        let l = seq![token_leaf(tokens@[i as int])];
        assert(elem_leaves(e).len() == 1);
        assert(elem_leaves(e)[0] == token_leaf(tokens@[i as int]));
        assert(elem_leaves(e) =~= l);
        assert(elem_pre(e) =~= token_pre(tokens@[i as int]));
    }
    e
}

/// Resolve every forward-parent chain into a flat open/attach/close list,
/// exactly as `resolve_spec` describes: each start event first walks and
/// neutralizes its chain, then the collected ancestor categories are
/// opened outermost first.
fn resolve(events: Vec<Event>) -> (out: Vec<ResolvedEvent>)
    ensures
        out@ == resolve_spec(events@, 0),
        (events@.len() > 0 && events@[0] is StartNode && start_fp(events@[0]) is None)
            ==> out@.len() > 0 && out@[0] == ResolvedEvent::StartNode(start_kind(events@[0])),
{
    let ghost evs0 = events@;
    let ghost rooted = evs0.len() > 0 && evs0[0] is StartNode && start_fp(evs0[0]) is None;
    let mut events = events;
    let mut out: Vec<ResolvedEvent> = Vec::new();
    let n = events.len();
    let mut idx: usize = 0;
    proof {
        assert(Seq::<ResolvedEvent>::empty() + resolve_spec(evs0, 0) =~= resolve_spec(evs0, 0));
    }
    while idx < n
        invariant
            events@.len() == n,
            idx <= n,
            rooted == (evs0.len() > 0 && evs0[0] is StartNode && start_fp(evs0[0]) is None),
            idx == 0 ==> events@ == evs0 && out@.len() == 0,
            rooted && idx > 0 ==> out@.len() > 0 && out@[0] == ResolvedEvent::StartNode(
                start_kind(evs0[0]),
            ),
            out@ + resolve_spec(events@, idx as int) == resolve_spec(evs0, 0),
        decreases n - idx,
    {
        let ghost events_top = events@;
        let ghost out_top = out@;
        let ev = events[idx];
        events.set(idx, Event::Placeholder);
        match ev {
            Event::StartNode { kind, forward_parent } => {
                let ghost fp0 = forward_parent;
                let mut kinds: Vec<SyntaxKind> = Vec::new();
                kinds.push(kind);
                proof {
                    assert(kinds@ =~= seq![kind]);
                }
                let ghost cw0 = chain_walk(events@, idx as int, forward_parent, kinds@);
                let mut fp: Option<usize> = forward_parent;
                let mut j: usize = idx;
                loop
                    invariant_except_break
                        chain_walk(events@, j as int, fp, kinds@) == cw0,
                    invariant
                        events@.len() == n,
                        j < n,
                        kinds@.len() >= 1,
                        (rooted && idx == 0) ==> fp is None && kinds@ == seq![
                            start_kind(evs0[0]),
                        ],
                    ensures
                        events@ == cw0.0,
                        kinds@ == cw0.1,
                    decreases n - j,
                {
                    let off: usize;
                    match fp {
                        Some(o) => {
                            off = o;
                        },
                        None => {
                            proof {
                                assert(chain_walk(events@, j as int, fp, kinds@) == (
                                    events@,
                                    kinds@,
                                ));
                            }
                            break;
                        },
                    }
                    if off < 1 || off > n - 1 - j {
                        proof {
                            assert(chain_walk(events@, j as int, fp, kinds@) == (
                                events@,
                                kinds@,
                            ));
                        }
                        break;
                    }
                    let ghost pre_events = events@;
                    let ghost pre_kinds = kinds@;
                    let ghost pre_j = j as int;
                    let ghost pre_fp = fp;
                    j = j + off;
                    match events[j] {
                        Event::StartNode { kind, forward_parent } => {
                            kinds.push(kind);
                            events.set(j, Event::Placeholder);
                            fp = forward_parent;
                            proof {
                                assert(chain_walk(pre_events, pre_j, pre_fp, pre_kinds)
                                    == chain_walk(events@, j as int, fp, kinds@));
                            }
                        },
                        _ => {
                            proof {
                                assert(chain_walk(pre_events, pre_j, pre_fp, pre_kinds) == (
                                    pre_events,
                                    pre_kinds,
                                ));
                            }
                            break;
                        },
                    }
                }
                let ghost out0 = out@;
                let mut k = kinds.len();
                proof {
                    assert(kinds@.skip(k as int) =~= Seq::<SyntaxKind>::empty());
                    assert(out@ =~= out0 + emit_opens(kinds@.skip(k as int)));
                }
                while k > 0
                    invariant
                        k <= kinds@.len(),
                        out@.len() == out0.len() + (kinds@.len() - k),
                        forall|j: int| 0 <= j < out0.len() ==> out@[j] == out0[j],
                        k < kinds@.len() ==> out@[out0.len() as int] == ResolvedEvent::StartNode(
                            kinds@[kinds@.len() - 1],
                        ),
                        out@ == out0 + emit_opens(kinds@.skip(k as int)),
                    decreases k,
                {
                    k = k - 1;
                    out.push(ResolvedEvent::StartNode(kinds[k]));
                    proof {
                        lemma_emit_opens_peel(kinds@.skip(k as int));
                        assert(kinds@.skip(k as int).drop_first() =~= kinds@.skip(k + 1));
                        assert(kinds@.skip(k as int).first() == kinds@[k as int]);
                        assert(out0 + (emit_opens(kinds@.skip(k + 1)) + seq![
                            ResolvedEvent::StartNode(kinds@[k as int]),
                        ]) =~= (out0 + emit_opens(kinds@.skip(k + 1))).push(
                            ResolvedEvent::StartNode(kinds@[k as int]),
                        ));
                    }
                }
                proof {
                    assert(kinds@.skip(0) =~= kinds@);
                    assert(out@ == out0 + emit_opens(kinds@));
                    assert(events_top[idx as int] == (Event::StartNode {
                        kind,
                        forward_parent: fp0,
                    }));
                    assert(resolve_spec(events_top, idx as int) == emit_opens(cw0.1)
                        + resolve_spec(cw0.0, idx as int + 1));
                    assert(out@ + resolve_spec(events@, idx as int + 1) =~= out_top + (
                    emit_opens(cw0.1) + resolve_spec(cw0.0, idx as int + 1)));
                }
            },
            Event::AddToken => {
                out.push(ResolvedEvent::AddToken);
                proof {
                    assert(resolve_spec(events_top, idx as int) == seq![
                        ResolvedEvent::AddToken,
                    ] + resolve_spec(events@, idx as int + 1));
                    assert(out@ + resolve_spec(events@, idx as int + 1) =~= out_top + (seq![
                        ResolvedEvent::AddToken,
                    ] + resolve_spec(events@, idx as int + 1)));
                }
            },
            Event::FinishNode => {
                out.push(ResolvedEvent::FinishNode);
                proof {
                    assert(resolve_spec(events_top, idx as int) == seq![
                        ResolvedEvent::FinishNode,
                    ] + resolve_spec(events@, idx as int + 1));
                    assert(out@ + resolve_spec(events@, idx as int + 1) =~= out_top + (seq![
                        ResolvedEvent::FinishNode,
                    ] + resolve_spec(events@, idx as int + 1)));
                }
            },
            Event::Placeholder => {
                proof {
                    assert(resolve_spec(events_top, idx as int) == resolve_spec(
                        events@,
                        idx as int + 1,
                    ));
                }
            },
        }
        idx = idx + 1;
    }
    proof {
        assert(resolve_spec(events@, n as int) =~= Seq::<ResolvedEvent>::empty());
        assert(out@ + Seq::<ResolvedEvent>::empty() =~= out@);
    }
    out
}

/// The tree builder: the full token sequence and the finished event log.
pub struct Sink {
    pub tokens: Vec<Token>,
    pub events: Vec<Event>,
}

impl Sink {
    pub fn new(tokens: Vec<Token>, events: Vec<Event>) -> (s: Sink)
        ensures
            s.tokens == tokens,
            s.events == events,
    {
        Sink { tokens, events }
    }

    /// Replay the event log and hand back the finished tree.
    ///
    /// The tree is exactly the one `finish_pre` describes — its whole
    /// shape is a function of the log and the tokens — and whatever the
    /// log holds, its leaves are exactly the tokens of the sequence, in
    /// order, trivia included, so the tree reproduces the lexed text byte
    /// for byte.
    pub fn finish(self) -> (root: SyntaxNode)
        ensures
            node_leaves(root) == leaves_of_tokens(self.tokens@),
            (self.events@.len() > 0 && self.events@[0] is StartNode && start_fp(self.events@[0])
                is None) ==> root.kind == start_kind(self.events@[0]),
            node_pre(root) == finish_pre(self.events@, self.tokens@),
    {
        let Sink { tokens, events } = self;
        let ghost toks = tokens@;
        let ghost evs = events@;
        let ghost rooted = events@.len() > 0 && events@[0] is StartNode && start_fp(events@[0])
            is None;
        let ghost k0 = start_kind(events@[0]);
        let resolved = resolve(events);
        let mut stack: Vec<SyntaxNode> = Vec::new();
        let mut cursor: usize = 0;
        let ghost full_replay = replay_pre(
            resolved@,
            0,
            toks,
            Seq::<(SyntaxKind, Seq<PreEvent>)>::empty(),
            0,
        );
        proof {
            assert(stack_leaves(stack@) =~= leaves_of_tokens(toks.take(0)));
            assert(frames_of(stack@) =~= Seq::<(SyntaxKind, Seq<PreEvent>)>::empty());
        }
        let n = resolved.len();
        let mut i: usize = 0;
        while i < n
            invariant
                i <= n,
                n == resolved@.len(),
                cursor <= toks.len(),
                tokens@ == toks,
                stack_leaves(stack@) == leaves_of_tokens(toks.take(cursor as int)),
                rooted ==> n > 0 && resolved@[0] == ResolvedEvent::StartNode(k0),
                rooted && i == 0 ==> stack@.len() == 0,
                rooted && i > 0 ==> stack@.len() >= 1 && stack@[0].kind == k0,
                replay_pre(resolved@, i as int, toks, frames_of(stack@), cursor as int)
                    == full_replay,
            decreases n - i,
        {
            let ghost f_top = frames_of(stack@);
            let ghost c_top = cursor as int;
            match resolved[i] {
                ResolvedEvent::StartNode(k) => {
                    let frame = SyntaxNode { kind: k, children: Vec::new() };
                    proof {
                        let s2 = stack@.push(frame);
                        assert(s2.drop_last() =~= stack@);
                        assert(node_leaves(frame) =~= Seq::<(SyntaxKind, Seq<char>)>::empty());
                        assert(stack_leaves(s2) =~= stack_leaves(stack@));
                    }
                    stack.push(frame);
                    proof {
                        assert(prefix_pre(frame, 0) =~= Seq::<PreEvent>::empty());
                        assert(frames_of(stack@) =~= f_top.push((
                            k,
                            Seq::<PreEvent>::empty(),
                        )));
                    }
                },
                ResolvedEvent::AddToken => {
                    if cursor < tokens.len() && stack.len() > 0 {
                        let e = leaf_of(&tokens, cursor);
                        attach(&mut stack, e);
                        proof {
                            assert(leaves_of_tokens(toks.take(cursor + 1)) =~= leaves_of_tokens(
                                toks.take(cursor as int),
                            ).push(token_leaf(toks[cursor as int])));
                            assert(leaves_of_tokens(toks.take(cursor as int)) + elem_leaves(e)
                                =~= leaves_of_tokens(toks.take(cursor + 1)));
                        }
                        cursor = cursor + 1;
                    } else {
                        proof {
                            assert(frames_of(stack@).len() == stack@.len());
                        }
                    }
                },
                ResolvedEvent::FinishNode => {
                    if stack.len() >= 2 {
                        fold_top(&mut stack);
                    } else {
                        proof {
                            assert(frames_of(stack@).len() == stack@.len());
                            assert(fold_pre(f_top) == f_top);
                        }
                    }
                },
            }
            let ghost f_step = frames_of(stack@);
            let ghost c_step = cursor as int;
            proof {
                if stack@.len() == 0 {
                    assert(stack_leaves(stack@) =~= Seq::<(SyntaxKind, Seq<char>)>::empty());
                    assert(leaves_of_tokens(toks.take(cursor as int)).len() == toks.take(
                        cursor as int,
                    ).len());
                    assert(cursor == 0);
                }
            }
            while cursor < tokens.len() && stack.len() > 0 && token_trivia_exec(&tokens[cursor])
                invariant
                    cursor <= toks.len(),
                    tokens@ == toks,
                    stack_leaves(stack@) == leaves_of_tokens(toks.take(cursor as int)),
                    stack@.len() > 0 || cursor == 0,
                    rooted ==> stack@.len() >= 1 && stack@[0].kind == k0,
                    eat_trivia_pre(frames_of(stack@), toks, cursor as int) == eat_trivia_pre(
                        f_step,
                        toks,
                        c_step,
                    ),
                decreases toks.len() - cursor,
            {
                proof {
                    assert(frames_of(stack@).len() == stack@.len());
                }
                let e = leaf_of(&tokens, cursor);
                attach(&mut stack, e);
                proof {
                    assert(leaves_of_tokens(toks.take(cursor + 1)) =~= leaves_of_tokens(
                        toks.take(cursor as int),
                    ).push(token_leaf(toks[cursor as int])));
                    assert(leaves_of_tokens(toks.take(cursor as int)) + elem_leaves(e)
                        =~= leaves_of_tokens(toks.take(cursor + 1)));
                }
                cursor = cursor + 1;
            }
            proof {
                assert(frames_of(stack@).len() == stack@.len());
                assert(eat_trivia_pre(frames_of(stack@), toks, cursor as int) == (
                    frames_of(stack@),
                    cursor as int,
                ));
                assert(replay_pre(resolved@, i as int, toks, f_top, c_top) == replay_pre(
                    resolved@,
                    i as int + 1,
                    toks,
                    frames_of(stack@),
                    cursor as int,
                ));
            }
            i = i + 1;
        }
        proof {
            assert(replay_pre(resolved@, n as int, toks, frames_of(stack@), cursor as int) == (
                frames_of(stack@),
                cursor as int,
            ));
            assert(frames_of(stack@) == full_replay.0);
            assert(cursor as int == full_replay.1);
            assert(frames_of(stack@).len() == stack@.len());
        }
        if stack.len() == 0 {
            let frame = SyntaxNode { kind: SyntaxKind::Root, children: Vec::new() };
            proof {
                let s2 = stack@.push(frame);
                assert(s2.drop_last() =~= stack@);
                assert(node_leaves(frame) =~= Seq::<(SyntaxKind, Seq<char>)>::empty());
                assert(stack_leaves(s2) =~= stack_leaves(stack@));
            }
            stack.push(frame);
            proof {
                assert(prefix_pre(frame, 0) =~= Seq::<PreEvent>::empty());
                assert(frames_of(stack@) =~= seq![
                    (SyntaxKind::Root, Seq::<PreEvent>::empty()),
                ]);
            }
        }
        let ghost f_based = frames_of(stack@);
        let ghost c_based = cursor as int;
        while cursor < tokens.len()
            invariant
                cursor <= toks.len(),
                tokens@ == toks,
                stack@.len() > 0,
                stack_leaves(stack@) == leaves_of_tokens(toks.take(cursor as int)),
                rooted ==> stack@[0].kind == k0,
                drain_pre(frames_of(stack@), toks, cursor as int) == drain_pre(
                    f_based,
                    toks,
                    c_based,
                ),
            decreases toks.len() - cursor,
        {
            let e = leaf_of(&tokens, cursor);
            attach(&mut stack, e);
            proof {
                assert(leaves_of_tokens(toks.take(cursor + 1)) =~= leaves_of_tokens(
                    toks.take(cursor as int),
                ).push(token_leaf(toks[cursor as int])));
                assert(leaves_of_tokens(toks.take(cursor as int)) + elem_leaves(e)
                    =~= leaves_of_tokens(toks.take(cursor + 1)));
            }
            cursor = cursor + 1;
        }
        proof {
            assert(drain_pre(frames_of(stack@), toks, cursor as int) == frames_of(stack@));
        }
        let ghost f_drained = frames_of(stack@);
        while stack.len() >= 2
            invariant
                stack@.len() > 0,
                stack_leaves(stack@) == leaves_of_tokens(toks.take(toks.len() as int)),
                rooted ==> stack@[0].kind == k0,
                fold_all_pre(frames_of(stack@)) == fold_all_pre(f_drained),
            decreases stack@.len(),
        {
            proof {
                assert(frames_of(stack@).len() == stack@.len());
                assert(fold_all_pre(frames_of(stack@)) == fold_all_pre(
                    fold_pre(frames_of(stack@)),
                ));
            }
            fold_top(&mut stack);
        }
        proof {
            assert(frames_of(stack@).len() == stack@.len());
            assert(fold_all_pre(frames_of(stack@)) == frames_of(stack@));
        }
        let ghost pre_final = stack@;
        let root_opt = stack.pop();
        match root_opt {
            Some(root) => {
                proof {
                    assert(pre_final.len() == 1);
                    assert(root == pre_final.last());
                    assert(pre_final.drop_last() =~= Seq::<SyntaxNode>::empty());
                    assert(stack_leaves(pre_final.drop_last()) =~= Seq::<
                        (SyntaxKind, Seq<char>),
                    >::empty());
                    assert(Seq::<(SyntaxKind, Seq<char>)>::empty() + node_leaves(root)
                        =~= node_leaves(root));
                    assert(node_leaves(root) == stack_leaves(pre_final));
                    assert(toks.take(toks.len() as int) =~= toks);
                }
                root
            },
            None => {
                proof {
                    assert(false);
                }
                SyntaxNode { kind: SyntaxKind::Root, children: Vec::new() }
            },
        }
    }
}

} // verus!
