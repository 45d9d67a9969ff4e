//! Free-standing parsers for the `roll` command prefix and bare dice
//! notation (`{count}d{sides}`), independent of the tree-building parser.

use crate::token_kind::{digit_run, is_digit_char, scan_digits, str_chars};
use vstd::prelude::*;
use vstd::string::StringExecFns;

verus! {

broadcast use vstd::seq::group_seq_axioms;

/// What a parse failure reports about the rule that failed.
#[derive(Debug, Copy, Clone, PartialEq, Eq, Structural)]
pub enum ErrorKind {
    Tag,
}

/// A parse failure: the remaining input at the point of failure and the
/// kind of rule that rejected it.
#[derive(Debug, PartialEq)]
pub struct Error {
    pub input: String,
    pub code: ErrorKind,
}

/// A dice specification: how many dice, with how many sides each.
#[derive(Debug, PartialEq, Eq, Structural, Copy, Clone)]
pub struct Rollable {
    pub amount: u32,
    pub sides: u32,
}

/// The numeric value of a digit character.
pub open spec fn char_digit(c: char) -> nat {
    if is_digit_char(c) {
        (c as u32 - 48) as nat
    } else {
        0
    }
}

/// The value of a digit string, most significant digit first.
pub open spec fn digits_val(s: Seq<char>) -> nat
    decreases s.len(),
{
    if s.len() == 0 {
        0
    } else {
        digits_val(s.drop_last()) * 10 + char_digit(s.last())
    }
}

/// A longer digit prefix never has a smaller value.
proof fn lemma_digits_val_mono(s: Seq<char>, i: int, j: int)
    requires
        0 <= i <= j <= s.len(),
    ensures
        digits_val(s.take(i)) <= digits_val(s.take(j)),
    decreases j - i,
{
    if i < j {
        lemma_digits_val_mono(s, i, j - 1);
        assert(s.take(j).drop_last() =~= s.take(j - 1));
    }
}

/// Every character inside the leading digit run is a digit.
proof fn lemma_digit_run_chars(s: Seq<char>, i: int)
    requires
        0 <= i < digit_run(s),
        digit_run(s) <= s.len(),
    ensures
        is_digit_char(s[i]),
    decreases i,
{
    if i > 0 {
        lemma_digit_run_chars(s.drop_first(), i - 1);
    }
}

proof fn lemma_digit_run_le_pub(s: Seq<char>)
    ensures
        digit_run(s) <= s.len(),
    decreases s.len(),
{
    if s.len() > 0 && is_digit_char(s[0]) {
        lemma_digit_run_le_pub(s.drop_first());
    }
}

/// Read the value of `chars[from..to]`, all digits; `None` when the value
/// does not fit in 32 bits.
fn parse_u32(chars: &Vec<char>, from: usize, to: usize) -> (r: Option<u32>)
    requires
        from <= to <= chars@.len(),
        forall|i: int| from <= i < to ==> is_digit_char(chars@[i]),
    ensures
        ({
            let s = chars@.subrange(from as int, to as int);
            &&& (r is Some <==> digits_val(s) <= u32::MAX)
            &&& (r is Some ==> r.unwrap() == digits_val(s))
        }),
{
    let ghost s = chars@.subrange(from as int, to as int);
    let mut acc: u32 = 0;
    let mut i: usize = from;
    proof {
        assert(s.take(0) =~= Seq::<char>::empty());
    }
    while i < to
        invariant
            from <= i <= to <= chars@.len(),
            s == chars@.subrange(from as int, to as int),
            forall|k: int| from <= k < to ==> is_digit_char(chars@[k]),
            acc == digits_val(s.take((i - from) as int)),
        decreases to - i,
    {
        let c = chars[i];
        proof {
            assert(is_digit_char(c));
        }
        let d: u32 = c as u32 - 48;
        if acc > (u32::MAX - d) / 10 {
            proof {
                let k = (i - from) as int;
                assert(s.take(k + 1).drop_last() =~= s.take(k));
                assert(s.take(k + 1).last() == s[k]);
                assert(s[k] == chars@[i as int]);
                assert(digits_val(s.take(k + 1)) == acc * 10 + d);
                assert(acc * 10 + d > u32::MAX) by {
                    assert(acc >= (u32::MAX - d) / 10 + 1);
                    assert(((u32::MAX - d) / 10 + 1) * 10 + d > u32::MAX);
                }
                lemma_digits_val_mono(s, k + 1, s.len() as int);
                assert(s.take(s.len() as int) =~= s);
            }
            return None;
        }
        proof {
            let k = (i - from) as int;
            assert(s.take(k + 1).drop_last() =~= s.take(k));
            assert(s.take(k + 1).last() == s[k]);
            assert(s[k] == chars@[i as int]);
            assert(acc * 10 + d <= u32::MAX) by {
                assert(acc <= (u32::MAX - d) / 10);
                assert(((u32::MAX - d) / 10) * 10 <= u32::MAX - d);
            }
        }
        acc = acc * 10 + d;
        i += 1;
    }
    proof {
        assert(s.take((to - from) as int) =~= s);
    }
    Some(acc)
}

/// Recognize the literal command word `roll` at the front of the input,
/// returning the rest of the input and the recognized word.  Anything else
/// is rejected with the whole input and `Tag`.
pub fn parse_roll(input: &str) -> (r: Result<(String, String), Error>)
    ensures
        r is Ok <==> input@.len() >= 4 && input@.take(4) == "roll"@,
        r is Ok ==> r.unwrap().0@ == input@.skip(4) && r.unwrap().1@ == "roll"@,
        r is Err ==> r.unwrap_err().input@ == input@ && r.unwrap_err().code == ErrorKind::Tag,
{
    proof {
        reveal_strlit("roll");
    }
    let chars = str_chars(input);
    if chars.len() >= 4 && chars[0] == 'r' && chars[1] == 'o' && chars[2] == 'l' && chars[3]
        == 'l' {
        let mut rest = String::new();
        let mut i: usize = 4;
        while i < chars.len()
            invariant
                4 <= i <= chars@.len(),
                chars@ == input@,
                rest@ =~= input@.subrange(4, i as int),
            decreases chars@.len() - i,
        {
            crate::token_kind::push_char(&mut rest, chars[i]);
            i += 1;
        }
        proof {
            assert(rest@ =~= input@.skip(4));
            assert(input@.take(4) =~= "roll"@);
        }
        Ok((rest, String::from_str("roll")))
    } else {
        proof {
            if input@.len() >= 4 && input@.take(4) == "roll"@ {
                assert(input@.take(4)[0] == 'r');
                assert(input@.take(4)[1] == 'o');
                assert(input@.take(4)[2] == 'l');
                assert(input@.take(4)[3] == 'l');
            }
        }
        Err(Error { input: String::from_str(input), code: ErrorKind::Tag })
    }
}

/// Whether dice notation spans the whole front of the input: a non-empty
/// count, `d`, and a non-empty side count, both values fitting 32 bits.
pub open spec fn dice_shape_ok(s: Seq<char>) -> bool {
    let a = digit_run(s) as int;
    let sd = digit_run(s.skip(a + 1)) as int;
    &&& a > 0
    &&& a < s.len()
    &&& s[a] == 'd'
    &&& sd > 0
    &&& digits_val(s.take(a)) <= u32::MAX
    &&& digits_val(s.skip(a + 1).take(sd)) <= u32::MAX
}

/// Parse dice notation `{count}d{sides}` at the front of the input,
/// returning the rest of the input and the two values.  When the `d` is
/// missing the error carries the input after the count digits; when the
/// count or side digits are missing or a value overflows, it carries the
/// whole input.  Either way the kind is `Tag`.
pub fn parse_dice(input: &str) -> (r: Result<(String, Rollable), Error>)
    ensures
        r is Ok <==> dice_shape_ok(input@),
        r is Ok ==> ({
            let a = digit_run(input@) as int;
            let sd = digit_run(input@.skip(a + 1)) as int;
            &&& r.unwrap().0@ == input@.skip(a + 1 + sd)
            &&& r.unwrap().1.amount == digits_val(input@.take(a))
            &&& r.unwrap().1.sides == digits_val(input@.skip(a + 1).take(sd))
        }),
        r is Err ==> r.unwrap_err().code == ErrorKind::Tag,
        r is Err ==> ({
            let a = digit_run(input@) as int;
            if !(a < input@.len() && input@[a] == 'd') {
                r.unwrap_err().input@ == input@.skip(a)
            } else {
                r.unwrap_err().input@ == input@
            }
        }),
{
    let chars = str_chars(input);
    let a = scan_digits(&chars, 0);
    proof {
        assert(chars@.skip(0) =~= chars@);
    }
    if !(a < chars.len() && chars[a] == 'd') {
        let mut rest = String::new();
        let mut i: usize = a;
        while i < chars.len()
            invariant
                a <= i <= chars@.len(),
                chars@ == input@,
                rest@ =~= input@.subrange(a as int, i as int),
            decreases chars@.len() - i,
        {
            crate::token_kind::push_char(&mut rest, chars[i]);
            i += 1;
        }
        proof {
            assert(rest@ =~= input@.skip(a as int));
        }
        return Err(Error { input: rest, code: ErrorKind::Tag });
    }
    let send = scan_digits(&chars, a + 1);
    let sd = send - (a + 1);
    proof {
        assert(chars@.skip((a + 1) as int) =~= input@.skip(a as int + 1));
    }
    if a == 0 || sd == 0 {
        return Err(Error { input: String::from_str(input), code: ErrorKind::Tag });
    }
    proof {
        lemma_digit_run_le_pub(input@);
        assert forall|i: int| 0 <= i < a implies is_digit_char(chars@[i]) by {
            lemma_digit_run_chars(input@, i);
        }
        assert forall|i: int| a + 1 <= i < send implies is_digit_char(chars@[i]) by {
            lemma_digit_run_le_pub(input@.skip(a + 1));
            lemma_digit_run_chars(input@.skip(a + 1), i - (a + 1));
            assert(input@.skip(a + 1)[i - (a + 1)] == chars@[i]);
        }
    }
    let amount_opt = parse_u32(&chars, 0, a);
    let sides_opt = parse_u32(&chars, a + 1, send);
    proof {
        assert(chars@.subrange(0, a as int) =~= input@.take(a as int));
        assert(chars@.subrange((a + 1) as int, send as int) =~= input@.skip(a as int + 1).take(
            sd as int,
        ));
    }
    let amount: u32;
    match amount_opt {
        Some(v) => {
            amount = v;
        },
        None => {
            return Err(Error { input: String::from_str(input), code: ErrorKind::Tag });
        },
    }
    let sides: u32;
    match sides_opt {
        Some(v) => {
            sides = v;
        },
        None => {
            return Err(Error { input: String::from_str(input), code: ErrorKind::Tag });
        },
    }
    let mut rest = String::new();
    let mut i: usize = send;
    while i < chars.len()
        invariant
            send <= i <= chars@.len(),
            chars@ == input@,
            rest@ =~= input@.subrange(send as int, i as int),
        decreases chars@.len() - i,
    {
        crate::token_kind::push_char(&mut rest, chars[i]);
        i += 1;
    }
    proof {
        assert(rest@ =~= input@.skip(send as int));
        assert(send as int == a as int + 1 + sd as int);
    }
    Ok((rest, Rollable { amount, sides }))
}

} // verus!
