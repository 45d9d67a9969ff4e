//! Token vocabulary and the hand-written maximal-munch lexer.
//!
//! `next_token_spec` is the mathematical description of the lexical rules:
//! at every position the longest match wins, with the keyword preferred over
//! an identifier of the same length and a dice literal preferred over an
//! identifier of the same length.  A character that no rule accepts becomes a
//! one-character unrecognized token, so the lexer always makes progress and
//! every character of the input lands in exactly one token.

use vstd::prelude::*;

verus! {

broadcast use vstd::seq::group_seq_axioms;

/// Lexical categories of the language.
#[derive(Debug, Copy, Clone, Ord, PartialOrd, Eq, PartialEq, Hash, Structural)]
pub enum TokenKind {
    Whitespace,
    Let,
    Dice,
    Ident,
    Number,
    Plus,
    Minus,
    Star,
    Slash,
    Equals,
    LParen,
    RParen,
    Comment,
    Error,
}

pub open spec fn is_ws_char(c: char) -> bool {
    c == ' ' || c == '\n'
}

pub open spec fn is_digit_char(c: char) -> bool {
    '0' as u32 <= c as u32 && c as u32 <= '9' as u32
}

pub open spec fn is_nonzero_digit_char(c: char) -> bool {
    '1' as u32 <= c as u32 && c as u32 <= '9' as u32
}

pub open spec fn is_alpha_char(c: char) -> bool {
    ('a' as u32 <= c as u32 && c as u32 <= 'z' as u32) || ('A' as u32 <= c as u32 && c as u32
        <= 'Z' as u32)
}

pub open spec fn is_alnum_char(c: char) -> bool {
    is_alpha_char(c) || is_digit_char(c)
}

/// Length of the longest prefix of whitespace characters.
pub open spec fn ws_run(s: Seq<char>) -> nat
    decreases s.len(),
{
    if s.len() == 0 || !is_ws_char(s[0]) {
        0
    } else {
        (ws_run(s.drop_first()) + 1) as nat
    }
}

/// Length of the longest prefix of decimal digits.
pub open spec fn digit_run(s: Seq<char>) -> nat
    decreases s.len(),
{
    if s.len() == 0 || !is_digit_char(s[0]) {
        0
    } else {
        (digit_run(s.drop_first()) + 1) as nat
    }
}

/// Length of the longest prefix of letters and digits.
pub open spec fn alnum_run(s: Seq<char>) -> nat
    decreases s.len(),
{
    if s.len() == 0 || !is_alnum_char(s[0]) {
        0
    } else {
        (alnum_run(s.drop_first()) + 1) as nat
    }
}

/// Length of the longest prefix free of newlines.
pub open spec fn nonnl_run(s: Seq<char>) -> nat
    decreases s.len(),
{
    if s.len() == 0 || s[0] == '\n' {
        0
    } else {
        (nonnl_run(s.drop_first()) + 1) as nat
    }
}

/// Longest match of an integer literal (digits, no leading zero) at the start
/// of `s`, or 0 if there is none.
pub open spec fn number_len(s: Seq<char>) -> nat {
    if s.len() > 0 && is_nonzero_digit_char(s[0]) {
        digit_run(s)
    } else {
        0
    }
}

/// Longest match of an identifier (a letter, then letters and digits).
pub open spec fn ident_len(s: Seq<char>) -> nat {
    if s.len() > 0 && is_alpha_char(s[0]) {
        (alnum_run(s.drop_first()) + 1) as nat
    } else {
        0
    }
}

/// Longest match of a line comment: `#` through the end of the line.
pub open spec fn comment_len(s: Seq<char>) -> nat {
    if s.len() > 0 && s[0] == '#' {
        (nonnl_run(s.drop_first()) + 1) as nat
    } else {
        0
    }
}

/// Match of the keyword `let`.
pub open spec fn let_len(s: Seq<char>) -> nat {
    if s.len() >= 3 && s[0] == 'l' && s[1] == 'e' && s[2] == 't' {
        3
    } else {
        0
    }
}

/// Longest match of a dice literal: an optional count (an integer with no
/// leading zero), the letter `d`, and a required side count of the same
/// digit shape.
pub open spec fn dice_len(s: Seq<char>) -> nat {
    let cl = number_len(s) as int;
    if cl < s.len() && s[cl] == 'd' && number_len(s.skip(cl + 1)) > 0 {
        (cl + 1 + number_len(s.skip(cl + 1))) as nat
    } else {
        0
    }
}

/// The single-character operator and delimiter tokens.
pub open spec fn punct_kind(c: char) -> Option<TokenKind> {
    if c == '+' {
        Some(TokenKind::Plus)
    } else if c == '-' {
        Some(TokenKind::Minus)
    } else if c == '*' {
        Some(TokenKind::Star)
    } else if c == '/' {
        Some(TokenKind::Slash)
    } else if c == '=' {
        Some(TokenKind::Equals)
    } else if c == '(' {
        Some(TokenKind::LParen)
    } else if c == ')' {
        Some(TokenKind::RParen)
    } else {
        None
    }
}

/// Classification and length of the token starting at the head of a
/// non-empty `s`: the longest match wins; the keyword `let` beats an
/// identifier of equal length, and a dice literal beats an identifier of
/// equal length.  When nothing matches the first character becomes a
/// one-character unrecognized token.
pub open spec fn next_token_spec(s: Seq<char>) -> (Result<TokenKind, ()>, nat) {
    if s.len() == 0 {
        (Err(()), 0)
    } else {
        let c = s[0];
        if is_ws_char(c) {
            (Ok(TokenKind::Whitespace), ws_run(s))
        } else if c == '#' {
            (Ok(TokenKind::Comment), comment_len(s))
        } else if punct_kind(c) is Some {
            (Ok(punct_kind(c).unwrap()), 1)
        } else if is_digit_char(c) {
            if dice_len(s) > 0 {
                (Ok(TokenKind::Dice), dice_len(s))
            } else if number_len(s) > 0 {
                (Ok(TokenKind::Number), number_len(s))
            } else {
                (Err(()), 1)
            }
        } else if is_alpha_char(c) {
            if dice_len(s) >= ident_len(s) {
                (Ok(TokenKind::Dice), dice_len(s))
            } else if let_len(s) == 3 && ident_len(s) == 3 {
                (Ok(TokenKind::Let), 3)
            } else {
                (Ok(TokenKind::Ident), ident_len(s))
            }
        } else {
            (Err(()), 1)
        }
    }
}

proof fn lemma_ws_run_le(s: Seq<char>)
    ensures
        ws_run(s) <= s.len(),
    decreases s.len(),
{
    if s.len() > 0 && is_ws_char(s[0]) {
        lemma_ws_run_le(s.drop_first());
    }
}

proof fn lemma_digit_run_le(s: Seq<char>)
    ensures
        digit_run(s) <= s.len(),
    decreases s.len(),
{
    if s.len() > 0 && is_digit_char(s[0]) {
        lemma_digit_run_le(s.drop_first());
    }
}

proof fn lemma_alnum_run_le(s: Seq<char>)
    ensures
        alnum_run(s) <= s.len(),
    decreases s.len(),
{
    if s.len() > 0 && is_alnum_char(s[0]) {
        lemma_alnum_run_le(s.drop_first());
    }
}

proof fn lemma_nonnl_run_le(s: Seq<char>)
    ensures
        nonnl_run(s) <= s.len(),
    decreases s.len(),
{
    if s.len() > 0 && s[0] != '\n' {
        lemma_nonnl_run_le(s.drop_first());
    }
}

/// Every token of a non-empty input covers at least one and at most all of
/// its characters, so tokenization always makes progress and never overruns.
pub proof fn lemma_next_token_len(s: Seq<char>)
    requires
        s.len() > 0,
    ensures
        1 <= next_token_spec(s).1 <= s.len(),
{
    lemma_ws_run_le(s);
    lemma_digit_run_le(s);
    lemma_alnum_run_le(s.drop_first());
    lemma_nonnl_run_le(s.drop_first());
    let cl = number_len(s) as int;
    if cl < s.len() && s[cl] == 'd' && number_len(s.skip(cl + 1)) > 0 {
        lemma_digit_run_le(s.skip(cl + 1));
    }
}

/// The token sequence of an input: each element pairs a classification
/// (`Err` for an unrecognized character) with the exact text it covers.
pub open spec fn lex_spec(s: Seq<char>) -> Seq<(Result<TokenKind, ()>, Seq<char>)>
    decreases s.len(),
{
    if s.len() == 0 {
        Seq::empty()
    } else {
        proof {
            lemma_next_token_len(s);
        }
        let kn = next_token_spec(s);
        seq![(kn.0, s.take(kn.1 as int))] + lex_spec(s.skip(kn.1 as int))
    }
}

/// The concatenation of the texts of a token sequence.
pub open spec fn models_text(ms: Seq<(Result<TokenKind, ()>, Seq<char>)>) -> Seq<char>
    decreases ms.len(),
{
    if ms.len() == 0 {
        Seq::empty()
    } else {
        ms[0].1 + models_text(ms.drop_first())
    }
}

/// Full coverage: the token texts, concatenated in order, are exactly the
/// input.
pub proof fn lemma_lex_spec_text(s: Seq<char>)
    ensures
        models_text(lex_spec(s)) == s,
    decreases s.len(),
{
    if s.len() == 0 {
        assert(models_text(lex_spec(s)) =~= s);
    } else {
        lemma_next_token_len(s);
        let kn = next_token_spec(s);
        let n = kn.1 as int;
        lemma_lex_spec_text(s.skip(n));
        let whole = lex_spec(s);
        assert(whole.drop_first() =~= lex_spec(s.skip(n)));
        assert(s.take(n) + s.skip(n) =~= s);
        assert(models_text(whole) =~= s);
    }
}

/// One lexical unit: a classification (or `Err` for an unrecognized
/// character) together with the exact text it covers.
#[derive(Debug, PartialEq)]
pub struct Token {
    pub kind: Result<TokenKind, ()>,
    pub text: String,
}

impl View for Token {
    type V = (Result<TokenKind, ()>, Seq<char>);

    open spec fn view(&self) -> Self::V {
        (self.kind, self.text@)
    }
}

impl Clone for Token {
    fn clone(&self) -> (r: Token)
        ensures
            r == *self,
    {
        Token { kind: self.kind, text: self.text.clone() }
    }
}

/// Relies on std's `String::push`: appends exactly the given character.
#[verifier::external_body]
pub(crate) fn push_char(s: &mut String, c: char)
    ensures
        final(s)@ == old(s)@.push(c),
{
    s.push(c);
}

fn string_from_range(chars: &Vec<char>, from: usize, to: usize) -> (r: String)
    requires
        from <= to <= chars@.len(),
    ensures
        r@ == chars@.subrange(from as int, to as int),
{
    let mut r = String::new();
    let mut i: usize = from;
    while i < to
        invariant
            from <= i <= to <= chars@.len(),
            r@ =~= chars@.subrange(from as int, i as int),
        decreases to - i,
    {
        push_char(&mut r, chars[i]);
        i += 1;
    }
    proof {
        assert(r@ =~= chars@.subrange(from as int, to as int));
    }
    r
}

fn is_ws_exec(c: char) -> (b: bool)
    ensures
        b == is_ws_char(c),
{
    c == ' ' || c == '\n'
}

fn is_digit_exec(c: char) -> (b: bool)
    ensures
        b == is_digit_char(c),
{
    c as u32 >= '0' as u32 && c as u32 <= '9' as u32
}

fn is_nonzero_digit_exec(c: char) -> (b: bool)
    ensures
        b == is_nonzero_digit_char(c),
{
    c as u32 >= '1' as u32 && c as u32 <= '9' as u32
}

fn is_alpha_exec(c: char) -> (b: bool)
    ensures
        b == is_alpha_char(c),
{
    (c as u32 >= 'a' as u32 && c as u32 <= 'z' as u32) || (c as u32 >= 'A' as u32 && c as u32
        <= 'Z' as u32)
}

fn is_alnum_exec(c: char) -> (b: bool)
    ensures
        b == is_alnum_char(c),
{
    is_alpha_exec(c) || is_digit_exec(c)
}

proof fn lemma_skip_succ(s: Seq<char>, i: int)
    requires
        0 <= i < s.len(),
    ensures
        s.skip(i).drop_first() =~= s.skip(i + 1),
{
}

fn scan_ws(chars: &Vec<char>, from: usize) -> (end: usize)
    requires
        from <= chars@.len(),
    ensures
        from <= end <= chars@.len(),
        end - from == ws_run(chars@.skip(from as int)),
{
    let mut i: usize = from;
    while i < chars.len() && is_ws_exec(chars[i])
        invariant
            from <= i <= chars@.len(),
            ws_run(chars@.skip(from as int)) == (i - from) + ws_run(chars@.skip(i as int)),
        decreases chars@.len() - i,
    {
        proof {
            lemma_skip_succ(chars@, i as int);
        }
        i += 1;
    }
    i
}

pub(crate) fn scan_digits(chars: &Vec<char>, from: usize) -> (end: usize)
    requires
        from <= chars@.len(),
    ensures
        from <= end <= chars@.len(),
        end - from == digit_run(chars@.skip(from as int)),
{
    let mut i: usize = from;
    while i < chars.len() && is_digit_exec(chars[i])
        invariant
            from <= i <= chars@.len(),
            digit_run(chars@.skip(from as int)) == (i - from) + digit_run(chars@.skip(i as int)),
        decreases chars@.len() - i,
    {
        proof {
            lemma_skip_succ(chars@, i as int);
        }
        i += 1;
    }
    i
}

fn scan_alnum(chars: &Vec<char>, from: usize) -> (end: usize)
    requires
        from <= chars@.len(),
    ensures
        from <= end <= chars@.len(),
        end - from == alnum_run(chars@.skip(from as int)),
{
    let mut i: usize = from;
    while i < chars.len() && is_alnum_exec(chars[i])
        invariant
            from <= i <= chars@.len(),
            alnum_run(chars@.skip(from as int)) == (i - from) + alnum_run(chars@.skip(i as int)),
        decreases chars@.len() - i,
    {
        proof {
            lemma_skip_succ(chars@, i as int);
        }
        i += 1;
    }
    i
}

fn scan_nonnl(chars: &Vec<char>, from: usize) -> (end: usize)
    requires
        from <= chars@.len(),
    ensures
        from <= end <= chars@.len(),
        end - from == nonnl_run(chars@.skip(from as int)),
{
    let mut i: usize = from;
    while i < chars.len() && chars[i] != '\n'
        invariant
            from <= i <= chars@.len(),
            nonnl_run(chars@.skip(from as int)) == (i - from) + nonnl_run(chars@.skip(i as int)),
        decreases chars@.len() - i,
    {
        proof {
            lemma_skip_succ(chars@, i as int);
        }
        i += 1;
    }
    i
}

/// The characters of a text, in order, as a vector.
pub(crate) fn str_chars(input: &str) -> (chars: Vec<char>)
    ensures
        chars@ == input@,
{
    let n = input.unicode_len();
    let mut chars: Vec<char> = Vec::new();
    let mut i: usize = 0;
    while i < n
        invariant
            i <= n,
            n == input@.len(),
            chars@ =~= input@.subrange(0, i as int),
        decreases n - i,
    {
        chars.push(input.get_char(i));
        i += 1;
    }
    proof {
        assert(chars@ =~= input@);
    }
    chars
}

/// A restartable cursor over the input that hands out one token at a time.
pub struct Lexer {
    pub chars: Vec<char>,
    pub pos: usize,
}

impl Lexer {
    /// The characters not yet consumed.
    pub open spec fn remaining(self) -> Seq<char> {
        self.chars@.skip(self.pos as int)
    }

    pub open spec fn wf(self) -> bool {
        self.pos <= self.chars@.len()
    }

    pub fn new(input: &str) -> (l: Lexer)
        ensures
            l.wf(),
            l.chars@ == input@,
            l.pos == 0,
    {
        Lexer { chars: str_chars(input), pos: 0 }
    }

    /// Produce the next token, or `None` at the end of the input.  The token
    /// is exactly what `next_token_spec` describes at the current position.
    pub fn next(&mut self) -> (r: Option<Token>)
        requires
            old(self).wf(),
        ensures
            final(self).wf(),
            final(self).chars == old(self).chars,
            old(self).pos == old(self).chars@.len() ==> r is None && *final(self) == *old(self),
            old(self).pos < old(self).chars@.len() ==> ({
                let s = old(self).remaining();
                let kn = next_token_spec(s);
                &&& r is Some
                &&& r.unwrap()@ == (kn.0, s.take(kn.1 as int))
                &&& final(self).pos == old(self).pos + kn.1
            }),
    {
        if self.pos >= self.chars.len() {
            return None;
        }
        let ghost s = self.remaining();
        proof {
            lemma_next_token_len(s);
        }
        let start = self.pos;
        let c = self.chars[start];
        let end: usize;
        let kind: Result<TokenKind, ()>;
        if is_ws_exec(c) {
            end = scan_ws(&self.chars, start);
            kind = Ok(TokenKind::Whitespace);
        } else if c == '#' {
            proof {
                lemma_skip_succ(self.chars@, start as int);
            }
            end = scan_nonnl(&self.chars, start + 1);
            kind = Ok(TokenKind::Comment);
        } else if c == '+' {
            end = start + 1;
            kind = Ok(TokenKind::Plus);
        } else if c == '-' {
            end = start + 1;
            kind = Ok(TokenKind::Minus);
        } else if c == '*' {
            end = start + 1;
            kind = Ok(TokenKind::Star);
        } else if c == '/' {
            end = start + 1;
            kind = Ok(TokenKind::Slash);
        } else if c == '=' {
            end = start + 1;
            kind = Ok(TokenKind::Equals);
        } else if c == '(' {
            end = start + 1;
            kind = Ok(TokenKind::LParen);
        } else if c == ')' {
            end = start + 1;
            kind = Ok(TokenKind::RParen);
        } else if is_digit_exec(c) {
            let nend = scan_digits(&self.chars, start);
            proof {
                assert(s.skip(0) =~= s);
            }
            if is_nonzero_digit_exec(c) && nend < self.chars.len() && self.chars[nend] == 'd'
                && is_nonzero_digit_at(&self.chars, nend + 1) {
                proof {
                    assert(number_len(s) == nend - start);
                    assert(s[(nend - start) as int] == self.chars@[nend as int]);
                    assert(s.skip((nend - start) + 1) =~= self.chars@.skip(nend + 1 as int));
                }
                let send = scan_digits(&self.chars, nend + 1);
                proof {
                    assert(number_len(s.skip((nend - start) + 1)) == send - (nend + 1));
                    assert(dice_len(s) == send - start);
                }
                end = send;
                kind = Ok(TokenKind::Dice);
            } else if is_nonzero_digit_exec(c) {
                proof {
                    assert(number_len(s) == nend - start);
                    assert(dice_len(s) == 0) by {
                        let cl = number_len(s) as int;
                        if cl < s.len() && s[cl] == 'd' && number_len(s.skip(cl + 1)) > 0 {
                            assert(self.chars@[start + cl] == 'd');
                            assert(s.skip(cl + 1) =~= self.chars@.skip(start + cl + 1));
                        }
                    }
                }
                end = nend;
                kind = Ok(TokenKind::Number);
            } else {
                proof {
                    assert(number_len(s) == 0);
                    assert(dice_len(s) == 0) by {
                        if 0 < s.len() && s[0] == 'd' {
                        }
                    }
                }
                end = start + 1;
                kind = Err(());
            }
        } else if is_alpha_exec(c) {
            proof {
                lemma_skip_succ(self.chars@, start as int);
            }
            let iend = scan_alnum(&self.chars, start + 1);
            proof {
                assert(ident_len(s) == iend - start);
            }
            let mut dend: usize = start;
            if c == 'd' && start + 1 < self.chars.len() && is_nonzero_digit_at(
                &self.chars,
                start + 1,
            ) {
                dend = scan_digits(&self.chars, start + 1);
                proof {
                    assert(number_len(s) == 0);
                    assert(s[0] == 'd');
                    assert(s.skip(1) =~= self.chars@.skip(start + 1 as int));
                    assert(dice_len(s) == dend - start);
                }
            } else {
                proof {
                    assert(dice_len(s) == 0) by {
                        let cl = number_len(s) as int;
                        assert(cl == 0);
                        if 0 < s.len() && s[0] == 'd' && number_len(s.skip(1)) > 0 {
                            assert(s.skip(1) =~= self.chars@.skip(start + 1 as int));
                        }
                    }
                }
            }
            if dend > start && dend >= iend {
                end = dend;
                kind = Ok(TokenKind::Dice);
            } else if c == 'l' && self.chars.len() - start > 2 && self.chars[start + 1] == 'e'
                && self.chars[start + 2] == 't' && iend == start + 3 {
                proof {
                    assert(let_len(s) == 3);
                }
                end = start + 3;
                kind = Ok(TokenKind::Let);
            } else {
                proof {
                    assert(let_len(s) == 3 ==> s[0] == 'l' && s[1] == 'e' && s[2] == 't');
                }
                end = iend;
                kind = Ok(TokenKind::Ident);
            }
        } else {
            end = start + 1;
            kind = Err(());
        }
        let text = string_from_range(&self.chars, start, end);
        proof {
            assert(s.take((end - start) as int) =~= self.chars@.subrange(
                start as int,
                end as int,
            ));
        }
        self.pos = end;
        Some(Token { kind, text })
    }
}

fn is_nonzero_digit_at(chars: &Vec<char>, i: usize) -> (b: bool)
    requires
        i <= chars@.len(),
    ensures
        b == (i < chars@.len() && is_nonzero_digit_char(chars@[i as int])),
{
    i < chars.len() && is_nonzero_digit_exec(chars[i])
}

/// Tokenize a whole input.  The result is exactly `lex_spec` of the input,
/// so in particular the token texts concatenate back to the input.
pub fn lex(input: &str) -> (tokens: Vec<Token>)
    ensures
        tokens@.map_values(|t: Token| t@) == lex_spec(input@),
        input@.len() <= usize::MAX,
{
    let mut lexer = Lexer::new(input);
    let _total_chars: usize = lexer.chars.len();
    let mut tokens: Vec<Token> = Vec::new();
    proof {
        assert(lexer.remaining() =~= input@);
        assert(tokens@.map_values(|t: Token| t@) + lex_spec(input@) =~= lex_spec(input@));
    }
    loop
        invariant
            lexer.wf(),
            lexer.chars@ == input@,
            tokens@.map_values(|t: Token| t@) + lex_spec(lexer.remaining()) =~= lex_spec(input@),
        decreases lexer.chars@.len() - lexer.pos,
    {
        let ghost s = lexer.remaining();
        match lexer.next() {
            None => {
                proof {
                    assert(s.len() == 0);
                    assert(tokens@.map_values(|t: Token| t@) =~= lex_spec(input@));
                }
                return tokens;
            },
            Some(t) => {
                proof {
                    lemma_next_token_len(s);
                    let kn = next_token_spec(s);
                    assert(lexer.remaining() =~= s.skip(kn.1 as int));
                    assert(tokens@.push(t).map_values(|t2: Token| t2@) =~= tokens@.map_values(
                        |t2: Token| t2@,
                    ).push(t@));
                    assert(tokens@.map_values(|t2: Token| t2@).push(t@) + lex_spec(
                        s.skip(kn.1 as int),
                    ) =~= tokens@.map_values(|t2: Token| t2@) + lex_spec(s));
                }
                tokens.push(t);
            },
        }
    }
}

} // verus!
