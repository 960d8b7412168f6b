use vstd::prelude::*;

use crate::state::spec_is_digit;

verus! {

// Primitive parsers over the input characters. Each takes the input and a
// cursor position and returns the parsed value with the new position, or
// `None` on failure, never touching the input itself.

/// Consumes any one character.
pub fn any(input: &Vec<char>, pos: usize) -> (r: Option<(char, usize)>)
    requires
        pos <= input@.len(),
    ensures
        input@.len() <= usize::MAX,
        r == if pos < input@.len() {
            Some((input@[pos as int], (pos + 1) as usize))
        } else {
            None::<(char, usize)>
        },
{
    if pos < input.len() {
        Some((input[pos], pos + 1))
    } else {
        None
    }
}

/// Consumes exactly the character `ch`.
pub fn character(input: &Vec<char>, pos: usize, ch: char) -> (r: Option<usize>)
    requires
        pos <= input@.len(),
    ensures
        input@.len() <= usize::MAX,
        r == if pos < input@.len() && input@[pos as int] == ch {
            Some((pos + 1) as usize)
        } else {
            None::<usize>
        },
{
    if pos < input.len() && input[pos] == ch {
        Some(pos + 1)
    } else {
        None
    }
}

/// Whether `s` occurs in `input` starting at `pos`.
pub open spec fn has_prefix(input: Seq<char>, pos: int, s: Seq<char>) -> bool {
    &&& pos + s.len() <= input.len()
    &&& input.subrange(pos, pos + s.len()) == s
}

/// Consumes exactly the string `s`.
pub fn string(input: &Vec<char>, pos: usize, s: &str) -> (r: Option<usize>)
    requires
        pos <= input@.len(),
    ensures
        input@.len() <= usize::MAX,
        r == if has_prefix(input@, pos as int, s@) {
            Some((pos + s@.len()) as usize)
        } else {
            None::<usize>
        },
{
    let n = s.unicode_len();
    if n > input.len() - pos {
        proof {
            assert(!has_prefix(input@, pos as int, s@));
        }
        return None;
    }
    let mut i: usize = 0;
    while i < n
        invariant
            input@.len() <= usize::MAX,
            pos + n <= input@.len(),
            n == s@.len(),
            i <= n,
            forall|k: int| 0 <= k < i ==> input@[pos + k] == s@[k],
        decreases n - i,
    {
        if input[pos + i] != s.get_char(i) {
            proof {
                assert(input@.subrange(pos as int, pos + s@.len())[i as int] != s@[i as int]);
            }
            return None;
        }
        i += 1;
    }
    proof {
        assert(input@.subrange(pos as int, pos + s@.len()) =~= s@);
    }
    Some(pos + n)
}

/// The numeric value of an ASCII digit.
pub open spec fn digit_val(c: char) -> int {
    c as int - 48
}

/// Consumes one ASCII digit and yields its value.
pub fn digit(input: &Vec<char>, pos: usize) -> (r: Option<(u32, usize)>)
    requires
        pos <= input@.len(),
    ensures
        input@.len() <= usize::MAX,
        r == if pos < input@.len() && spec_is_digit(input@[pos as int]) {
            Some((digit_val(input@[pos as int]) as u32, (pos + 1) as usize))
        } else {
            None::<(u32, usize)>
        },
{
    if pos < input.len() {
        let c = input[pos];
        if '0' <= c && c <= '9' {
            return Some((c as u32 - 48, pos + 1));
        }
    }
    None
}

/// The position right after the run of digits starting at `pos`.
pub open spec fn digits_end(s: Seq<char>, pos: int) -> int
    decreases s.len() - pos,
{
    if 0 <= pos < s.len() && spec_is_digit(s[pos]) {
        digits_end(s, pos + 1)
    } else {
        pos
    }
}

/// The value of the digits `s[pos..end]`, most significant first.
pub open spec fn digits_val(s: Seq<char>, pos: int, end: int) -> int
    decreases end - pos,
{
    if pos >= end {
        0
    } else {
        digits_val(s, pos, end - 1) * 10 + digit_val(s[end - 1])
    }
}

/// The digit run is a run: it stays inside the input, consists of digits,
/// and stops at the first non-digit.
pub proof fn lemma_digits_end_props(s: Seq<char>, pos: int)
    requires
        0 <= pos <= s.len(),
    ensures
        pos <= digits_end(s, pos) <= s.len(),
        forall|k: int| pos <= k < digits_end(s, pos) ==> spec_is_digit(#[trigger] s[k]),
        digits_end(s, pos) == s.len() || !spec_is_digit(s[digits_end(s, pos)]),
    decreases s.len() - pos,
{
    if pos < s.len() && spec_is_digit(s[pos]) {
        lemma_digits_end_props(s, pos + 1);
    }
}

/// Digit-run values are non-negative and grow with the run.
pub proof fn lemma_digits_val_mono(s: Seq<char>, pos: int, e1: int, e2: int)
    requires
        pos <= e1 <= e2,
        forall|k: int| pos <= k < e2 ==> spec_is_digit(#[trigger] s[k]),
    ensures
        0 <= digits_val(s, pos, e1) <= digits_val(s, pos, e2),
    decreases e2 - pos,
{
    if e2 > pos {
        if e1 == e2 {
            lemma_digits_val_mono(s, pos, e2 - 1, e2 - 1);
        } else {
            lemma_digits_val_mono(s, pos, e1, e2 - 1);
        }
    }
}

/// Whether the character at `i` is an ASCII digit.
fn digit_at(input: &Vec<char>, i: usize) -> (r: bool)
    requires
        i < input@.len(),
    ensures
        r == spec_is_digit(input@[i as int]),
{
    let c = input[i];
    '0' <= c && c <= '9'
}

/// Consumes the longest run of digits and folds it into a number; fails on
/// an empty run or when the value does not fit.
pub fn number(input: &Vec<char>, pos: usize) -> (r: Option<(u32, usize)>)
    requires
        pos <= input@.len(),
    ensures
        input@.len() <= usize::MAX,
        ({
            let e = digits_end(input@, pos as int);
            &&& (r is None <==> (e == pos || digits_val(input@, pos as int, e) > u32::MAX))
            &&& (r matches Some(p) ==> p.0 == digits_val(input@, pos as int, e) && p.1 == e
                && pos < e && e <= input@.len())
        }),
{
    let ghost e = digits_end(input@, pos as int);
    proof {
        lemma_digits_end_props(input@, pos as int);
    }
    let mut value: u32 = 0;
    let mut i = pos;
    let mut seen = false;
    while i < input.len() && digit_at(input, i)
        invariant
            pos <= i <= input@.len(),
            e == digits_end(input@, pos as int),
            pos <= e <= input@.len(),
            forall|k: int| pos <= k < e ==> spec_is_digit(#[trigger] input@[k]),
            e == input@.len() || !spec_is_digit(input@[e]),
            i <= e,
            i < e ==> spec_is_digit(input@[i as int]),
            seen <==> i > pos,
            value == digits_val(input@, pos as int, i as int),
        decreases input@.len() - i,
    {
        let c = input[i];
        let d = c as u32 - 48;
        if value > (u32::MAX - d) / 10 {
            proof {
                assert(value * 10 + d > u32::MAX) by (nonlinear_arith)
                    requires
                        value > (u32::MAX - d) / 10,
                        d <= 9,
                        (u32::MAX - d) / 10 >= 0,
                ;
                lemma_digits_val_mono(input@, pos as int, i + 1, e);
                assert(digits_val(input@, pos as int, i + 1) == value * 10 + d);
            }
            return None;
        }
        proof {
            assert(value * 10 + d <= u32::MAX) by (nonlinear_arith)
                requires
                    value <= (u32::MAX - d) / 10,
                    d <= 9,
            ;
        }
        value = value * 10 + d;
        seen = true;
        i += 1;
        proof {
            assert(i <= e);
        }
    }
    proof {
        assert(i == e);
    }
    if seen {
        Some((value, i))
    } else {
        None
    }
}

/// Consumes a backslash and the character it escapes, yielding that
/// character.
pub fn escaped(input: &Vec<char>, pos: usize) -> (r: Option<(char, usize)>)
    requires
        pos <= input@.len(),
    ensures
        input@.len() <= usize::MAX,
        r == if pos + 1 < input@.len() && input@[pos as int] == '\\' {
            Some((input@[pos + 1], (pos + 2) as usize))
        } else {
            None::<(char, usize)>
        },
{
    if pos < input.len() && input[pos] == '\\' && pos + 1 < input.len() {
        Some((input[pos + 1], pos + 2))
    } else {
        None
    }
}

/// Succeeds exactly at the end of the input: used to reject trailing
/// characters after a parse.
pub fn end(input: &Vec<char>, pos: usize) -> (r: bool)
    ensures
        r == (pos >= input@.len()),
{
    pos >= input.len()
}

} // verus!
