//! Markers: the deferred-construction handles of the event log.
//!
//! `Parser::start` reserves a slot and hands back a `Marker`, which must be
//! finalized exactly once: either completed into a node directly, or — for
//! a node whose true parent is discovered only later — completed and then
//! preceded, which records at its original slot a relative forward offset
//! to the newly reserved parent slot.

use crate::event::{lemma_count_add_push, lemma_count_add_update, start_kind, Event};
use crate::parser::{log_accounted, Parser};
use crate::syntax::SyntaxKind;
use vstd::pervasive::VecAdditionalExecFns;
use vstd::prelude::*;

verus! {

broadcast use vstd::seq::group_seq_axioms;

/// A reserved, not yet finalized slot of the event log.  Dropping a marker
/// without completing it is a programming error: the reserved slot would
/// stay a placeholder and the node would never exist.
#[must_use]
pub struct Marker {
    pub pos: usize,
}

impl Marker {
    pub fn new(pos: usize) -> (m: Marker)
        ensures
            m.pos == pos,
    {
        Marker { pos }
    }

    /// Finalize this marker: the reserved slot becomes the start of a node
    /// of the given category, and a matching finish event is appended.
    pub fn complete(self, p: &mut Parser, kind: SyntaxKind) -> (cm: CompletedMarker)
        requires
            old(p).inv(),
            self.pos < old(p).events@.len(),
            old(p).events@[self.pos as int] is Placeholder,
        ensures
            final(p).inv(),
            final(p).events@ == old(p).events@.update(
                self.pos as int,
                Event::StartNode { kind, forward_parent: None },
            ).push(Event::FinishNode),
            final(p).source == old(p).source,
            final(p).errors == old(p).errors,
            cm.pos == self.pos,
            log_accounted(*old(p), *final(p)),
    {
        p.events.set(self.pos, Event::StartNode { kind, forward_parent: None });
        proof {
            lemma_count_add_update(
                old(p).events@,
                self.pos as int,
                Event::StartNode { kind, forward_parent: None },
            );
        }
        p.events.push(Event::FinishNode);
        proof {
            lemma_count_add_push(
                old(p).events@.update(
                    self.pos as int,
                    Event::StartNode { kind, forward_parent: None },
                ),
                Event::FinishNode,
            );
            assert(crate::source::sig_count(
                p.toks(),
                p.source.cursor as int,
                p.source.cursor as int,
            ) == 0);
        }
        CompletedMarker { pos: self.pos }
    }
}

/// A finalized node of the event log, still addressable so that a later
/// discovery can nest it under a new parent.
#[must_use]
pub struct CompletedMarker {
    pub pos: usize,
}

impl CompletedMarker {
    /// Reserve a new slot for a node that must enclose this finished one,
    /// and record at this node's original slot the relative forward offset
    /// of that new slot.  The sink opens the parent before the child when
    /// it replays the log.
    pub fn precede(self, p: &mut Parser) -> (m: Marker)
        requires
            old(p).inv(),
            self.pos < old(p).events@.len(),
            old(p).events@[self.pos as int] is StartNode,
        ensures
            final(p).inv(),
            final(p).events@ == old(p).events@.push(Event::Placeholder).update(
                self.pos as int,
                Event::StartNode {
                    kind: start_kind(old(p).events@[self.pos as int]),
                    forward_parent: Some((old(p).events@.len() - self.pos) as usize),
                },
            ),
            final(p).source == old(p).source,
            final(p).errors == old(p).errors,
            m.pos == old(p).events@.len(),
            log_accounted(*old(p), *final(p)),
    {
        let new_pos = p.events.len();
        let kind = match p.events[self.pos] {
            Event::StartNode { kind, .. } => kind,
            _ => SyntaxKind::Error,
        };
        p.events.push(Event::Placeholder);
        proof {
            lemma_count_add_push(old(p).events@, Event::Placeholder);
        }
        p.events.set(
            self.pos,
            Event::StartNode { kind, forward_parent: Some(new_pos - self.pos) },
        );
        proof {
            lemma_count_add_update(
                old(p).events@.push(Event::Placeholder),
                self.pos as int,
                Event::StartNode { kind, forward_parent: Some((new_pos - self.pos) as usize) },
            );
            assert(crate::source::sig_count(
                p.toks(),
                p.source.cursor as int,
                p.source.cursor as int,
            ) == 0);
        }
        Marker::new(new_pos)
    }
}

} // verus!
