//! The trivia-skipping cursor over the token sequence.
//!
//! The grammar sees only significant (non-trivia) tokens through this
//! cursor; the underlying sequence is left intact so the sink can later
//! replay it in full, trivia included.

use crate::syntax::{kind_of_token, SyntaxKind};
use crate::token_kind::{Token, TokenKind};
use vstd::prelude::*;

verus! {

broadcast use vstd::seq::group_seq_axioms;

/// Whether a token is trivia (whitespace or a comment).  An unrecognized
/// token is never trivia.
pub open spec fn token_is_trivia(t: Token) -> bool {
    match t.kind {
        Ok(k) => kind_of_token(k).spec_is_trivia(),
        Err(_) => false,
    }
}

/// The tree-kind classification of a token as the grammar sees it.
pub open spec fn token_kind_view(t: Token) -> Result<SyntaxKind, ()> {
    match t.kind {
        Ok(k) => Ok(kind_of_token(k)),
        Err(_) => Err(()),
    }
}

/// The index of the first significant token at or after `i`, or the length
/// of the sequence if only trivia remains.
pub open spec fn next_sig(tokens: Seq<Token>, i: int) -> int
    decreases tokens.len() - i,
{
    if i < 0 || i >= tokens.len() {
        tokens.len() as int
    } else if !token_is_trivia(tokens[i]) {
        i
    } else {
        next_sig(tokens, i + 1)
    }
}

/// Basic facts about `next_sig`: it stays within bounds, lands on a
/// significant token when one exists, and skips only trivia.
pub proof fn lemma_next_sig(tokens: Seq<Token>, i: int)
    requires
        0 <= i <= tokens.len(),
    ensures
        i <= next_sig(tokens, i) <= tokens.len(),
        next_sig(tokens, i) < tokens.len() ==> !token_is_trivia(
            tokens[next_sig(tokens, i)],
        ),
        forall|j: int| i <= j < next_sig(tokens, i) ==> token_is_trivia(tokens[j]),
    decreases tokens.len() - i,
{
    if i < tokens.len() && token_is_trivia(tokens[i]) {
        lemma_next_sig(tokens, i + 1);
    }
}

/// The number of significant tokens among positions `[i, j)`.
pub open spec fn sig_count(tokens: Seq<Token>, i: int, j: int) -> nat
    decreases j - i,
{
    if i < 0 || i >= j || i >= tokens.len() {
        0
    } else {
        ((if token_is_trivia(tokens[i]) {
            0nat
        } else {
            1nat
        }) + sig_count(tokens, i + 1, j)) as nat
    }
}

/// Counting significant tokens splits at any midpoint.
pub proof fn lemma_sig_count_split(tokens: Seq<Token>, i: int, j: int, k: int)
    requires
        0 <= i <= j <= k,
    ensures
        sig_count(tokens, i, k) == sig_count(tokens, i, j) + sig_count(tokens, j, k),
    decreases j - i,
{
    if i < j && i < tokens.len() {
        lemma_sig_count_split(tokens, i + 1, j, k);
    } else if i == j {
    } else {
        assert(i >= tokens.len());
        lemma_sig_count_none(tokens, j, k);
    }
}

/// Beyond the end of the sequence there is nothing to count.
proof fn lemma_sig_count_none(tokens: Seq<Token>, i: int, j: int)
    requires
        i >= tokens.len(),
    ensures
        sig_count(tokens, i, j) == 0,
    decreases j - i,
{
    if 0 <= i < j && i < tokens.len() {
        lemma_sig_count_none(tokens, i + 1, j);
    }
}

/// The tokens skipped on the way to the next significant one are all
/// trivia, so they count for nothing.
pub proof fn lemma_sig_count_gap(tokens: Seq<Token>, i: int)
    requires
        0 <= i <= tokens.len(),
    ensures
        sig_count(tokens, i, next_sig(tokens, i)) == 0,
    decreases tokens.len() - i,
{
    if i < tokens.len() && token_is_trivia(tokens[i]) {
        lemma_sig_count_gap(tokens, i + 1);
    }
}

/// Consuming up to and including the next significant token consumes
/// exactly one significant token.
pub proof fn lemma_sig_count_to_sig(tokens: Seq<Token>, i: int)
    requires
        0 <= i <= tokens.len(),
        next_sig(tokens, i) < tokens.len(),
    ensures
        sig_count(tokens, i, next_sig(tokens, i) + 1) == 1,
{
    let ns = next_sig(tokens, i);
    lemma_next_sig(tokens, i);
    lemma_sig_count_gap(tokens, i);
    lemma_sig_count_split(tokens, i, ns, ns + 1);
    assert(sig_count(tokens, ns + 1, ns + 1) == 0);
    assert(sig_count(tokens, ns, ns + 1) == 1);
}

/// The views of a token sequence: what every grammar decision and every
/// tree leaf is a function of.
pub open spec fn token_views(ts: Seq<Token>) -> Seq<(Result<TokenKind, ()>, Seq<char>)> {
    ts.map_values(|t: Token| t@)
}

/// The next significant position is never negative.
pub proof fn lemma_next_sig_ge0(tokens: Seq<Token>, i: int)
    ensures
        next_sig(tokens, i) >= 0,
    decreases tokens.len() - i,
{
    if 0 <= i < tokens.len() && token_is_trivia(tokens[i]) {
        lemma_next_sig_ge0(tokens, i + 1);
    }
}

/// Two token sequences with equal views agree on every significant-token
/// question, so the next significant position is the same.
pub proof fn lemma_next_sig_view(toks1: Seq<Token>, toks2: Seq<Token>, i: int)
    requires
        token_views(toks1) == token_views(toks2),
    ensures
        next_sig(toks1, i) == next_sig(toks2, i),
    decreases toks1.len() - i,
{
    assert(token_views(toks1).len() == toks1.len());
    assert(token_views(toks2).len() == toks2.len());
    if 0 <= i < toks1.len() {
        assert(token_views(toks1)[i] == toks1[i]@);
        assert(token_views(toks2)[i] == toks2[i]@);
        assert(token_is_trivia(toks1[i]) == token_is_trivia(toks2[i]));
        if token_is_trivia(toks1[i]) {
            lemma_next_sig_view(toks1, toks2, i + 1);
        }
    }
}

/// A forward-only cursor over the tokens that exposes only significant
/// tokens to its callers.
pub struct Source {
    pub tokens: Vec<Token>,
    pub cursor: usize,
}

impl Source {
    pub open spec fn wf(self) -> bool {
        self.cursor <= self.tokens@.len()
    }

    /// The index of the next significant token, as a specification value.
    pub open spec fn sig_cursor(self) -> int {
        next_sig(self.tokens@, self.cursor as int)
    }

    pub fn new(tokens: Vec<Token>) -> (s: Source)
        ensures
            s.tokens == tokens,
            s.cursor == 0,
            s.wf(),
    {
        Source { tokens, cursor: 0 }
    }

    fn peek_kind_raw(&self) -> (r: Option<Result<SyntaxKind, ()>>)
        requires
            self.wf(),
        ensures
            self.cursor < self.tokens@.len() ==> r == Some(
                token_kind_view(self.tokens@[self.cursor as int]),
            ),
            self.cursor == self.tokens@.len() ==> r is None,
    {
        if self.cursor < self.tokens.len() {
            let t = &self.tokens[self.cursor];
            match t.kind {
                Ok(k) => Some(Ok(SyntaxKind::from(k))),
                Err(_) => Some(Err(())),
            }
        } else {
            None
        }
    }

    fn at_trivia(&self) -> (b: bool)
        requires
            self.wf(),
        ensures
            b == (self.cursor < self.tokens@.len() && token_is_trivia(
                self.tokens@[self.cursor as int],
            )),
    {
        if self.cursor < self.tokens.len() {
            let t = &self.tokens[self.cursor];
            match t.kind {
                Ok(k) => SyntaxKind::from(k).is_trivia(),
                Err(_) => false,
            }
        } else {
            false
        }
    }

    /// Advance the cursor to the next significant token without consuming
    /// it.
    pub fn eat_trivia(&mut self)
        requires
            old(self).wf(),
        ensures
            final(self).wf(),
            final(self).tokens == old(self).tokens,
            final(self).cursor == old(self).sig_cursor(),
            old(self).cursor <= old(self).sig_cursor() <= old(self).tokens@.len(),
    {
        proof {
            lemma_next_sig(old(self).tokens@, old(self).cursor as int);
        }
        while self.at_trivia()
            invariant
                self.wf(),
                self.tokens == old(self).tokens,
                next_sig(self.tokens@, self.cursor as int) == old(self).sig_cursor(),
                old(self).cursor <= self.cursor,
            decreases self.tokens@.len() - self.cursor,
        {
            let c = self.cursor;
            if c < self.tokens.len() {
                self.cursor = c + 1;
            }
        }
    }

    /// The classification of the next significant token, without consuming
    /// it; `None` at the end of the input.
    pub fn peek_kind(&mut self) -> (r: Option<Result<SyntaxKind, ()>>)
        requires
            old(self).wf(),
        ensures
            final(self).wf(),
            final(self).tokens == old(self).tokens,
            final(self).cursor == old(self).sig_cursor(),
            final(self).sig_cursor() == old(self).sig_cursor(),
            old(self).cursor <= old(self).sig_cursor() <= old(self).tokens@.len(),
            old(self).sig_cursor() < old(self).tokens@.len() ==> r == Some(
                token_kind_view(old(self).tokens@[old(self).sig_cursor()]),
            ),
            old(self).sig_cursor() == old(self).tokens@.len() ==> r is None,
    {
        proof {
            lemma_next_sig(old(self).tokens@, old(self).cursor as int);
        }
        self.eat_trivia();
        self.peek_kind_raw()
    }

    /// Consume and return the next significant token; `None` at the end of
    /// the input.
    pub fn next_token(&mut self) -> (r: Option<Token>)
        requires
            old(self).wf(),
        ensures
            final(self).wf(),
            final(self).tokens == old(self).tokens,
            old(self).cursor <= old(self).sig_cursor() <= old(self).tokens@.len(),
            final(self).cursor > old(self).cursor || final(self).cursor == old(self).tokens@.len(),
            old(self).sig_cursor() < old(self).tokens@.len() ==> r == Some(
                old(self).tokens@[old(self).sig_cursor()],
            ) && final(self).cursor == old(self).sig_cursor() + 1,
            old(self).sig_cursor() == old(self).tokens@.len() ==> r is None
                && final(self).cursor == old(self).tokens@.len(),
    {
        proof {
            lemma_next_sig(old(self).tokens@, old(self).cursor as int);
        }
        self.eat_trivia();
        if self.cursor < self.tokens.len() {
            let t = self.tokens[self.cursor].clone();
            self.cursor = self.cursor + 1;
            Some(t)
        } else {
            None
        }
    }
}

} // verus!
