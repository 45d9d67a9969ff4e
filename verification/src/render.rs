//! The textual debug rendering of a syntax tree.
//!
//! Each node prints as its category and inclusive-exclusive byte range
//! (positions count UTF-8 bytes); each leaf additionally prints its text,
//! quoted and escaped.
//! Children are indented two spaces below their parent.  This is an
//! inspection interface for tests and the interactive shell, not a stable
//! wire format.

use crate::syntax::SyntaxKind;
use crate::tree::{elem_text, node_text, prefix_leaves, leaves_text, lemma_leaves_text_concat,
    SyntaxElement, SyntaxNode};
use vstd::prelude::*;
use vstd::string::StringExecFns;

verus! {

broadcast use {vstd::seq::group_seq_axioms, vstd::std_specs::vec::group_vec_axioms};

/// The UTF-8 byte length of a text: tree positions count bytes.
pub open spec fn byte_len(s: Seq<char>) -> nat {
    vstd::utf8::encode_utf8(s).len()
}

/// Byte lengths add up over concatenation.
pub proof fn lemma_byte_len_concat(a: Seq<char>, b: Seq<char>)
    ensures
        byte_len(a + b) == byte_len(a) + byte_len(b),
    decreases a.len(),
{
    if a.len() == 0 {
        assert(a + b =~= b);
        assert(vstd::utf8::encode_utf8(a) =~= Seq::<u8>::empty());
    } else {
        lemma_byte_len_concat(a.drop_first(), b);
        assert((a + b).drop_first() =~= a.drop_first() + b);
        assert((a + b)[0] == a[0]);
        assert((a + b).len() != 0);
    }
}

proof fn lemma_prefix_bytes_step(n: SyntaxNode, i: int)
    requires
        0 <= i < n.children@.len(),
    ensures
        byte_len(leaves_text(prefix_leaves(n, i + 1))) == byte_len(
            leaves_text(prefix_leaves(n, i)),
        ) + byte_len(elem_text(n.children@[i])),
{
    crate::tree::lemma_prefix_text_step(n, i);
    lemma_byte_len_concat(leaves_text(prefix_leaves(n, i)), elem_text(n.children@[i]));
}

proof fn lemma_prefix_bytes_mono(n: SyntaxNode, i: int, j: int)
    requires
        0 <= i <= j <= n.children@.len(),
    ensures
        byte_len(leaves_text(prefix_leaves(n, i))) <= byte_len(leaves_text(prefix_leaves(n, j))),
    decreases j - i,
{
    if i < j {
        lemma_prefix_bytes_mono(n, i, j - 1);
        lemma_prefix_bytes_step(n, j - 1);
    }
}

/// The printed name of each category.
pub open spec fn kind_name_spec(k: SyntaxKind) -> Seq<char> {
    match k {
        SyntaxKind::Whitespace => "Whitespace"@,
        SyntaxKind::LetKw => "LetKw"@,
        SyntaxKind::Dice => "Dice"@,
        SyntaxKind::Ident => "Ident"@,
        SyntaxKind::Number => "Number"@,
        SyntaxKind::Plus => "Plus"@,
        SyntaxKind::Minus => "Minus"@,
        SyntaxKind::Star => "Star"@,
        SyntaxKind::Slash => "Slash"@,
        SyntaxKind::Equals => "Equals"@,
        SyntaxKind::LParen => "LParen"@,
        SyntaxKind::RParen => "RParen"@,
        SyntaxKind::Comment => "Comment"@,
        SyntaxKind::Error => "Error"@,
        SyntaxKind::Root => "Root"@,
        SyntaxKind::InfixExpr => "InfixExpr"@,
        SyntaxKind::Literal => "Literal"@,
        SyntaxKind::ParenExpr => "ParenExpr"@,
        SyntaxKind::PrefixExpr => "PrefixExpr"@,
        SyntaxKind::VariableRef => "VariableRef"@,
        SyntaxKind::VariableDef => "VariableDef"@,
    }
}

fn kind_name(k: SyntaxKind) -> (r: &'static str)
    ensures
        r@ == kind_name_spec(k),
{
    match k {
        SyntaxKind::Whitespace => "Whitespace",
        SyntaxKind::LetKw => "LetKw",
        SyntaxKind::Dice => "Dice",
        SyntaxKind::Ident => "Ident",
        SyntaxKind::Number => "Number",
        SyntaxKind::Plus => "Plus",
        SyntaxKind::Minus => "Minus",
        SyntaxKind::Star => "Star",
        SyntaxKind::Slash => "Slash",
        SyntaxKind::Equals => "Equals",
        SyntaxKind::LParen => "LParen",
        SyntaxKind::RParen => "RParen",
        SyntaxKind::Comment => "Comment",
        SyntaxKind::Error => "Error",
        SyntaxKind::Root => "Root",
        SyntaxKind::InfixExpr => "InfixExpr",
        SyntaxKind::Literal => "Literal",
        SyntaxKind::ParenExpr => "ParenExpr",
        SyntaxKind::PrefixExpr => "PrefixExpr",
        SyntaxKind::VariableRef => "VariableRef",
        SyntaxKind::VariableDef => "VariableDef",
    }
}

/// The decimal digit characters.
pub open spec fn digit_char(d: nat) -> char {
    if d == 0 {
        '0'
    } else if d == 1 {
        '1'
    } else if d == 2 {
        '2'
    } else if d == 3 {
        '3'
    } else if d == 4 {
        '4'
    } else if d == 5 {
        '5'
    } else if d == 6 {
        '6'
    } else if d == 7 {
        '7'
    } else if d == 8 {
        '8'
    } else {
        '9'
    }
}

/// The decimal rendering of a number, most significant digit first.
pub open spec fn dec_rep(n: nat) -> Seq<char>
    decreases n,
{
    if n < 10 {
        seq![digit_char(n)]
    } else {
        dec_rep(n / 10).push(digit_char(n % 10))
    }
}

fn push_digit(d: usize, out: &mut String)
    requires
        d < 10,
    ensures
        final(out)@ == old(out)@.push(digit_char(d as nat)),
{
    let c: &'static str = match d {
        0 => "0",
        1 => "1",
        2 => "2",
        3 => "3",
        4 => "4",
        5 => "5",
        6 => "6",
        7 => "7",
        8 => "8",
        _ => "9",
    };
    proof {
        reveal_strlit("0");
        reveal_strlit("1");
        reveal_strlit("2");
        reveal_strlit("3");
        reveal_strlit("4");
        reveal_strlit("5");
        reveal_strlit("6");
        reveal_strlit("7");
        reveal_strlit("8");
        reveal_strlit("9");
        assert(c@ =~= seq![digit_char(d as nat)]);
    }
    out.append(c);
    proof {
        assert(old(out)@ + seq![digit_char(d as nat)] =~= old(out)@.push(digit_char(d as nat)));
    }
}

fn append_dec(n: usize, out: &mut String)
    ensures
        final(out)@ == old(out)@ + dec_rep(n as nat),
    decreases n,
{
    if n < 10 {
        push_digit(n, out);
        proof {
            assert(old(out)@.push(digit_char(n as nat)) =~= old(out)@ + dec_rep(n as nat));
        }
    } else {
        append_dec(n / 10, out);
        push_digit(n % 10, out);
        proof {
            assert(old(out)@ + dec_rep((n / 10) as nat).push(digit_char((n % 10) as nat))
                =~= (old(out)@ + dec_rep((n / 10) as nat)).push(digit_char((n % 10) as nat)));
        }
    }
}

/// The lowercase hexadecimal digit characters.
pub open spec fn hex_digit(d: nat) -> char {
    if d < 10 {
        digit_char(d)
    } else if d == 10 {
        'a'
    } else if d == 11 {
        'b'
    } else if d == 12 {
        'c'
    } else if d == 13 {
        'd'
    } else if d == 14 {
        'e'
    } else {
        'f'
    }
}

/// How one character of leaf text prints inside its quotes: quote,
/// backslash, newline, carriage return and tab print as their usual
/// two-character escapes; any other control character (including the
/// second control block) prints as `\u{..}` with its lowercase
/// hexadecimal value.
pub open spec fn escape_char_spec(c: char) -> Seq<char> {
    if c == '"' {
        seq!['\\', '"']
    } else if c == '\\' {
        seq!['\\', '\\']
    } else if c == '\n' {
        seq!['\\', 'n']
    } else if c == '\r' {
        seq!['\\', 'r']
    } else if c == '\t' {
        seq!['\\', 't']
    } else if (c as u32) < 32 || (c as u32 >= 127 && c as u32 <= 159) {
        let v = c as u32 as nat;
        if v < 16 {
            seq!['\\', 'u', '{', hex_digit(v), '}']
        } else {
            seq!['\\', 'u', '{', hex_digit(v / 16), hex_digit(v % 16), '}']
        }
    } else {
        seq![c]
    }
}

fn push_hex_digit(d: u32, out: &mut String)
    requires
        d < 16,
    ensures
        final(out)@ == old(out)@.push(hex_digit(d as nat)),
{
    if d < 10 {
        push_digit(d as usize, out);
    } else if d == 10 {
        push_char('a', out);
    } else if d == 11 {
        push_char('b', out);
    } else if d == 12 {
        push_char('c', out);
    } else if d == 13 {
        push_char('d', out);
    } else if d == 14 {
        push_char('e', out);
    } else {
        push_char('f', out);
    }
}

/// The escaped form of a whole leaf text.
pub open spec fn escape_text_spec(s: Seq<char>) -> Seq<char>
    decreases s.len(),
{
    if s.len() == 0 {
        Seq::empty()
    } else {
        escape_text_spec(s.drop_last()) + escape_char_spec(s.last())
    }
}

fn push_char(c: char, out: &mut String)
    ensures
        final(out)@ == old(out)@.push(c),
{
    crate::token_kind::push_char(out, c);
}

fn append_escaped_char(c: char, out: &mut String)
    ensures
        final(out)@ == old(out)@ + escape_char_spec(c),
{
    let ghost pre = out@;
    if c == '"' {
        push_char('\\', out);
        push_char('"', out);
    } else if c == '\\' {
        push_char('\\', out);
        push_char('\\', out);
    } else if c == '\n' {
        push_char('\\', out);
        push_char('n', out);
    } else if c == '\r' {
        push_char('\\', out);
        push_char('r', out);
    } else if c == '\t' {
        push_char('\\', out);
        push_char('t', out);
    } else if (c as u32) < 32 || (c as u32 >= 127 && c as u32 <= 159) {
        let v: u32 = c as u32;
        push_char('\\', out);
        push_char('u', out);
        push_char('{', out);
        if v < 16 {
            push_hex_digit(v, out);
        } else {
            push_hex_digit(v / 16, out);
            push_hex_digit(v % 16, out);
        }
        push_char('}', out);
    } else {
        push_char(c, out);
    }
    proof {
        assert(out@ =~= pre + escape_char_spec(c));
    }
}

fn append_escaped(text: &String, out: &mut String)
    ensures
        final(out)@ == old(out)@ + escape_text_spec(text@),
{
    let n = text.as_str().unicode_len();
    let mut i: usize = 0;
    proof {
        assert(old(out)@ + escape_text_spec(text@.take(0)) =~= old(out)@);
    }
    while i < n
        invariant
            i <= n,
            n == text@.len(),
            out@ == old(out)@ + escape_text_spec(text@.take(i as int)),
        decreases n - i,
    {
        let c = text.as_str().get_char(i);
        append_escaped_char(c, out);
        proof {
            assert(text@.take(i + 1).drop_last() =~= text@.take(i as int));
            assert(text@.take(i + 1).last() == text@[i as int]);
            assert((old(out)@ + escape_text_spec(text@.take(i as int))) + escape_char_spec(
                text@[i as int],
            ) =~= old(out)@ + (escape_text_spec(text@.take(i as int)) + escape_char_spec(
                text@[i as int],
            )));
        }
        i += 1;
    }
    proof {
        assert(text@.take(n as int) =~= text@);
    }
}

/// The spaces of one indentation level.
pub open spec fn spaces(n: nat) -> Seq<char>
    decreases n,
{
    if n == 0 {
        Seq::empty()
    } else {
        spaces((n - 1) as nat).push(' ')
    }
}

fn append_spaces(n: usize, out: &mut String)
    ensures
        final(out)@ == old(out)@ + spaces(n as nat),
    decreases n,
{
    if n == 0 {
        proof {
            assert(old(out)@ + spaces(0) =~= old(out)@);
        }
    } else {
        append_spaces(n - 1, out);
        push_char(' ', out);
        proof {
            assert((old(out)@ + spaces((n - 1) as nat)).push(' ') =~= old(out)@ + spaces(
                n as nat,
            ));
        }
    }
}

/// The `Kind@start..end` header of a node or leaf line.
pub open spec fn header_spec(k: SyntaxKind, start: nat, end: nat) -> Seq<char> {
    kind_name_spec(k) + seq!['@'] + dec_rep(start) + seq!['.', '.'] + dec_rep(end)
}

fn append_header(k: SyntaxKind, start: usize, end: usize, out: &mut String)
    ensures
        final(out)@ == old(out)@ + header_spec(k, start as nat, end as nat),
{
    out.append(kind_name(k));
    push_char('@', out);
    append_dec(start, out);
    push_char('.', out);
    push_char('.', out);
    append_dec(end, out);
    proof {
        assert(out@ =~= old(out)@ + header_spec(k, start as nat, end as nat));
    }
}

/// One rendered element: its header line, for a leaf followed by its quoted
/// text, and for a node followed by its children, each on its own line,
/// indented two more spaces.
pub open spec fn render_elem_spec(e: SyntaxElement, start: nat, indent: nat) -> Seq<char>
    decreases e, 0int, 0int,
{
    match e {
        SyntaxElement::Token(t) => spaces(indent) + header_spec(
            t.kind,
            start,
            start + byte_len(t.text@),
        ) + seq![' ', '"'] + escape_text_spec(t.text@) + seq!['"'],
        SyntaxElement::Node(n) => render_node_spec(n, start, indent),
    }
}

/// A rendered node: its header line and its rendered children.
pub open spec fn render_node_spec(n: SyntaxNode, start: nat, indent: nat) -> Seq<char>
    decreases n, 1int, 0int,
{
    spaces(indent) + header_spec(n.kind, start, start + byte_len(node_text(n))) + render_children_spec(
        n,
        0,
        start,
        indent,
    )
}

/// The next indentation level; at the edge of the machine's range it stops
/// growing instead of overflowing.
pub open spec fn bump_indent(i: nat) -> nat {
    if i + 2 <= usize::MAX {
        i + 2
    } else {
        i
    }
}

/// The rendered children of `n` from index `i` on, the first starting at
/// text position `pos`.
pub open spec fn render_children_spec(n: SyntaxNode, i: int, pos: nat, indent: nat) -> Seq<char>
    decreases n, 0int, n.children@.len() - i,
{
    if i < 0 || i >= n.children@.len() {
        Seq::empty()
    } else {
        seq!['\n'] + render_elem_spec(n.children@[i], pos, bump_indent(indent))
            + render_children_spec(
            n,
            i + 1,
            pos + byte_len(elem_text(n.children@[i])),
            indent,
        )
    }
}

/// The byte length of the text an element covers, which must fit in
/// memory.
fn elem_len(e: &SyntaxElement) -> (r: usize)
    requires
        byte_len(elem_text(*e)) <= usize::MAX,
    ensures
        r == byte_len(elem_text(*e)),
    decreases *e,
{
    match e {
        SyntaxElement::Token(t) => {
            proof {
                crate::tree::lemma_elem_text_token(*t);
            }
            t.text.as_str().as_bytes().len()
        },
        SyntaxElement::Node(n) => {
            proof {
                assert(elem_text(*e) == node_text(*n));
            }
            elem_len_node(n)
        },
    }
}

/// Render one element into `out`, returning the text position just past it.
fn render_elem(e: &SyntaxElement, start: usize, indent: usize, out: &mut String) -> (end: usize)
    requires
        start + byte_len(elem_text(*e)) <= usize::MAX,
    ensures
        final(out)@ == old(out)@ + render_elem_spec(*e, start as nat, indent as nat),
        end == start + byte_len(elem_text(*e)),
    decreases *e,
{
    match e {
        SyntaxElement::Token(t) => {
            proof {
                crate::tree::lemma_elem_text_token(*t);
            }
            append_spaces(indent, out);
            let tl = t.text.as_str().as_bytes().len();
            append_header(t.kind, start, start + tl, out);
            push_char(' ', out);
            push_char('"', out);
            append_escaped(&t.text, out);
            push_char('"', out);
            proof {
                assert(out@ =~= old(out)@ + render_elem_spec(*e, start as nat, indent as nat));
            }
            start + tl
        },
        SyntaxElement::Node(n) => render_node(n, start, indent, out),
    }
}

/// Render a node and its subtree into `out`, returning the text position
/// just past it.
pub fn render_node(n: &SyntaxNode, start: usize, indent: usize, out: &mut String) -> (end: usize)
    requires
        start + byte_len(node_text(*n)) <= usize::MAX,
    ensures
        final(out)@ == old(out)@ + render_node_spec(*n, start as nat, indent as nat),
        end == start + byte_len(node_text(*n)),
    decreases *n,
{
    let ghost e = SyntaxElement::Node(*n);
    proof {
        assert(elem_text(e) == node_text(*n));
    }
    let nl = elem_len_node(n);
    append_spaces(indent, out);
    append_header(n.kind, start, start + nl, out);
    let mut pos: usize = start;
    let mut i: usize = 0;
    proof {
        assert(leaves_text(prefix_leaves(*n, 0)) =~= Seq::<char>::empty());
        assert(byte_len(leaves_text(prefix_leaves(*n, 0))) == 0);
        assert(out@ + render_children_spec(*n, 0, start as nat, indent as nat) =~= old(out)@
            + render_node_spec(*n, start as nat, indent as nat));
    }
    while i < n.children.len()
        invariant
            i <= n.children@.len(),
            start + byte_len(node_text(*n)) <= usize::MAX,
            pos == start + byte_len(leaves_text(prefix_leaves(*n, i as int))),
            out@ + render_children_spec(*n, i as int, pos as nat, indent as nat) == old(out)@
                + render_node_spec(*n, start as nat, indent as nat),
        decreases n.children@.len() - i,
    {
        proof {
            lemma_prefix_bytes_step(*n, i as int);
            lemma_prefix_bytes_mono(*n, i + 1, n.children@.len() as int);
            assert(pos + byte_len(elem_text(n.children@[i as int])) <= usize::MAX);
        }
        let ghost pre = out@;
        push_char('\n', out);
        let deeper: usize = if indent <= usize::MAX - 2 {
            indent + 2
        } else {
            indent
        };
        let new_pos = render_elem(&n.children[i], pos, deeper, out);
        proof {
            assert(deeper as nat == bump_indent(indent as nat));
            assert(out@ =~= pre + (seq!['\n'] + render_elem_spec(
                n.children@[i as int],
                pos as nat,
                bump_indent(indent as nat),
            )));
        }
        pos = new_pos;
        i += 1;
    }
    proof {
        assert(render_children_spec(*n, n.children@.len() as int, pos as nat, indent as nat)
            =~= Seq::<char>::empty());
        assert(out@ + Seq::<char>::empty() =~= out@);
        assert(leaves_text(prefix_leaves(*n, n.children@.len() as int)) == node_text(*n));
    }
    pos
}

/// The byte length of the text a node covers.
fn elem_len_node(n: &SyntaxNode) -> (r: usize)
    requires
        byte_len(node_text(*n)) <= usize::MAX,
    ensures
        r == byte_len(node_text(*n)),
    decreases *n,
{
    let mut acc: usize = 0;
    let mut i: usize = 0;
    proof {
        assert(leaves_text(prefix_leaves(*n, 0)) =~= Seq::<char>::empty());
        assert(byte_len(leaves_text(prefix_leaves(*n, 0))) == 0);
    }
    while i < n.children.len()
        invariant
            i <= n.children@.len(),
            acc == byte_len(leaves_text(prefix_leaves(*n, i as int))),
            byte_len(node_text(*n)) <= usize::MAX,
        decreases n.children@.len() - i,
    {
        proof {
            lemma_prefix_bytes_step(*n, i as int);
            lemma_prefix_bytes_mono(*n, i + 1, n.children@.len() as int);
            assert(byte_len(elem_text(n.children@[i as int])) <= usize::MAX);
        }
        let cl = elem_len(&n.children[i]);
        acc = acc + cl;
        i += 1;
    }
    acc
}

} // verus!
