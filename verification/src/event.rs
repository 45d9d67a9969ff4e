//! The flat, append-only log of tree-building events.
//!
//! The grammar never touches a tree: it appends events, and the sink later
//! replays them.  A `StartNode` may carry a relative forward offset to a
//! later `StartNode` that was discovered to be its true parent after this
//! node was already finished; the sink resolves such chains during replay.

use crate::syntax::SyntaxKind;
use vstd::prelude::*;

verus! {

broadcast use vstd::seq::group_seq_axioms;

/// One entry of the event log.
#[derive(Debug, Copy, Clone)]
pub enum Event {
    /// Begin a node of the given category.  `forward_parent`, when set, is
    /// the relative offset of a later event whose node must be opened
    /// around this one.
    StartNode { kind: SyntaxKind, forward_parent: Option<usize> },
    /// Attach the next significant token as a leaf.
    AddToken,
    /// Finish the most recently opened node.
    FinishNode,
    /// A reserved slot for a node not yet begun (an open marker), or an
    /// entry already consumed during replay.
    Placeholder,
}

/// The category recorded in a `StartNode` event.
pub open spec fn start_kind(e: Event) -> SyntaxKind {
    match e {
        Event::StartNode { kind, .. } => kind,
        _ => SyntaxKind::Error,
    }
}

/// The forward parent recorded in a `StartNode` event.
pub open spec fn start_fp(e: Event) -> Option<usize> {
    match e {
        Event::StartNode { forward_parent, .. } => forward_parent,
        _ => None,
    }
}

/// The number of leaf-attachment events in a log.
pub open spec fn count_add(es: Seq<Event>) -> nat
    decreases es.len(),
{
    if es.len() == 0 {
        0
    } else {
        (count_add(es.drop_last()) + (if es.last() is AddToken {
            1nat
        } else {
            0nat
        })) as nat
    }
}

/// Appending one event raises the leaf count by one exactly for `AddToken`.
pub proof fn lemma_count_add_push(es: Seq<Event>, e: Event)
    ensures
        count_add(es.push(e)) == count_add(es) + (if e is AddToken {
            1nat
        } else {
            0nat
        }),
{
    assert(es.push(e).drop_last() =~= es);
    assert(es.push(e).last() == e);
}

/// Replacing a non-leaf event by a non-leaf event keeps the leaf count.
pub proof fn lemma_count_add_update(es: Seq<Event>, i: int, v: Event)
    requires
        0 <= i < es.len(),
        !(es[i] is AddToken),
        !(v is AddToken),
    ensures
        count_add(es.update(i, v)) == count_add(es),
    decreases es.len(),
{
    let u = es.update(i, v);
    if i == es.len() - 1 {
        assert(u.drop_last() =~= es.drop_last());
        assert(u.last() == v);
    } else {
        assert(u.drop_last() =~= es.drop_last().update(i, v));
        assert(u.last() == es.last());
        lemma_count_add_update(es.drop_last(), i, v);
    }
}

} // verus!
