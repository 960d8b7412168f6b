use vstd::prelude::*;

use crate::automata::{opt_view, Automata};
use crate::semantics::{
    closure_spec, concat_spec, from_anchor_spec, from_lambda_spec, from_token_spec,
    optional_spec, or_spec, plus_spec, AutoView,
};
use crate::chars::{chars_to_string, str_to_chars};
use crate::error::Error;
use crate::state::{Anchor, Lambda};

verus! {

/// The character inserted between two tokens that are concatenated, chosen
/// outside the printable range so it cannot collide with a literal.
pub const CONCAT_CHAR: char = '\x1b';

/// Appends all characters of `src` to `dst`.
fn append_chars(dst: &mut Vec<char>, src: &Vec<char>)
    ensures
        final(dst)@ == old(dst)@ + src@,
{
    let mut i: usize = 0;
    while i < src.len()
        invariant
            i <= src@.len(),
            dst@ == old(dst)@ + src@.subrange(0, i as int),
        decreases src@.len() - i,
    {
        dst.push(src[i]);
        proof {
            assert(dst@ =~= old(dst)@ + src@.subrange(0, i + 1));
        }
        i += 1;
    }
    proof {
        assert(dst@ =~= old(dst)@ + src@);
    }
}

/// Whether `v` is exactly the one-character word `c`.
fn is_single(v: &Vec<char>, c: char) -> (r: bool)
    ensures
        r == (v@ =~= seq![c]),
{
    let r = v.len() == 1 && v[0] == c;
    proof {
        if r {
            assert(v@ =~= seq![c]);
        }
    }
    r
}

/// The mathematical values of a stack of words.
pub open spec fn word_views(ws: Seq<Vec<char>>) -> Seq<Seq<char>> {
    Seq::new(ws.len(), |i: int| ws[i]@)
}

/// Pushing a word onto the stack pushes its view.
proof fn lemma_word_views_push(ws: Seq<Vec<char>>, w: Vec<char>)
    ensures
        word_views(ws.push(w)) == word_views(ws).push(w@),
{
    assert(word_views(ws.push(w)) =~= word_views(ws).push(w@));
}

/// Taking a sub-stack takes the corresponding views.
proof fn lemma_word_views_subrange(ws: Seq<Vec<char>>, a: int, b: int)
    requires
        0 <= a <= b <= ws.len(),
    ensures
        word_views(ws.subrange(a, b)) == word_views(ws).subrange(a, b),
{
    assert(word_views(ws.subrange(a, b)) =~= word_views(ws).subrange(a, b));
}

/// The words of a stack, concatenated in order.
pub open spec fn concat_words(ws: Seq<Seq<char>>) -> Seq<char>
    decreases ws.len(),
{
    if ws.len() == 0 {
        Seq::<char>::empty()
    } else {
        concat_words(ws.drop_last()) + ws.last()
    }
}

/// The index of the topmost lone `(` on the word stack, if any.
pub open spec fn spec_find_open(stack: Seq<Seq<char>>) -> Option<int>
    decreases stack.len(),
{
    if stack.len() == 0 {
        None
    } else if stack.last() == seq!['('] {
        Some(stack.len() - 1)
    } else {
        spec_find_open(stack.drop_last())
    }
}

/// The index of the topmost lone `(` on the word stack, if any.
fn find_open(stack: &Vec<Vec<char>>) -> (r: Option<usize>)
    ensures
        r is Some <==> spec_find_open(word_views(stack@)) is Some,
        r matches Some(k) ==> spec_find_open(word_views(stack@)) == Some(k as int) && k
            < stack@.len(),
{
    let ghost views = word_views(stack@);
    let mut k = stack.len();
    proof {
        assert(views.subrange(0, stack@.len() as int) =~= views);
    }
    while k > 0
        invariant
            views == word_views(stack@),
            k <= stack@.len(),
            spec_find_open(views) == spec_find_open(views.subrange(0, k as int)),
        decreases k,
    {
        proof {
            assert(views.subrange(0, k as int).last() == stack@[k - 1]@);
            assert(views.subrange(0, k as int).drop_last() =~= views.subrange(0, k - 1));
        }
        if is_single(&stack[k - 1], '(') {
            return Some(k - 1);
        }
        k -= 1;
    }
    proof {
        assert(views.subrange(0, 0) =~= Seq::<Seq<char>>::empty());
    }
    None
}

/// The first phase of reading a `{..}` quantifier: digits of the minimum,
/// up to a `}` (meaning `{l}`), a `,` (continuing with the maximum), the
/// end of the input, a non-digit, or a value too large for the machine
/// (`None`).
pub open spec fn spec_quantifier_min(input: Seq<char>, i: int, min: int) -> Option<(
    (int, Option<int>),
    int,
)>
    decreases input.len() - i, 1int,
{
    if !(0 <= i < input.len()) {
        Some(((min, None), i))
    } else if input[i] == '}' {
        Some(((min, Some(min)), i + 1))
    } else if input[i] == ',' {
        spec_quantifier_max(input, i + 1, min, None)
    } else if crate::state::spec_is_digit(input[i]) {
        let d = crate::alphabet::digit_val(input[i]);
        if min > (usize::MAX - d) / 10 {
            None
        } else {
            spec_quantifier_min(input, i + 1, min * 10 + d)
        }
    } else {
        None
    }
}

/// The second phase: digits of the maximum, up to the closing `}` or the
/// end of the input.
pub open spec fn spec_quantifier_max(input: Seq<char>, i: int, min: int, max: Option<int>) -> Option<
    ((int, Option<int>), int),
>
    decreases input.len() - i, 0int,
{
    if !(0 <= i < input.len()) {
        Some(((min, max), i))
    } else if input[i] == '}' {
        Some(((min, max), i + 1))
    } else if crate::state::spec_is_digit(input[i]) {
        let d = crate::alphabet::digit_val(input[i]);
        let prev = match max {
            Some(m) => m,
            None => 0,
        };
        if prev > (usize::MAX - d) / 10 {
            None
        } else {
            spec_quantifier_max(input, i + 1, min, Some(prev * 10 + d))
        }
    } else {
        None
    }
}

/// What reading a `{..}` quantifier from `pos` (right after the `{`)
/// yields: the bounds and the position after the closing `}`.
pub open spec fn spec_read_quantifier(input: Seq<char>, pos: int) -> Option<(
    (int, Option<int>),
    int,
)> {
    spec_quantifier_min(input, pos, 0)
}

/// Reads the inside of a `{..}` quantifier starting at `pos` (right after
/// the `{`): the minimum, the optional maximum, and the position after the
/// closing `}`. `{l}` yields `(l, Some(l))`, `{l,}` yields `(l, None)` and
/// `{l,u}` yields `(l, Some(u))`; a non-digit other than `,` and `}` is an
/// error, as is a value too large for the machine.
pub fn read_quantifier(input: &Vec<char>, pos: usize) -> (r: Result<
    ((usize, Option<usize>), usize),
    Error,
>)
    requires
        pos <= input@.len(),
    ensures
        ({
            let s = spec_read_quantifier(input@, pos as int);
            match (r, s) {
                (Ok(p), Some(sp)) => p.0.0 == sp.0.0 && opt_view(p.0.1) == sp.0.1 && p.1 == sp.1,
                (Err(e), None) => true,
                _ => false,
            }
        }),
        r matches Ok(p) ==> pos <= p.1 <= input@.len(),
{
    let ghost target = spec_read_quantifier(input@, pos as int);
    let mut min: usize = 0;
    let mut max: Option<usize> = None;
    let mut i = pos;
    let mut in_second = false;
    while i < input.len() && !in_second
        invariant
            pos <= i <= input@.len(),
            target == spec_read_quantifier(input@, pos as int),
            !in_second ==> max is None && target == spec_quantifier_min(
                input@,
                i as int,
                min as int,
            ),
            in_second ==> target == spec_quantifier_max(
                input@,
                i as int,
                min as int,
                opt_view(max),
            ),
        decreases input@.len() - i,
    {
        let c = input[i];
        if c == '}' {
            return Ok(((min, Some(min)), i + 1));
        }
        if c == ',' {
            i += 1;
            in_second = true;
        } else if '0' <= c && c <= '9' {
            let d = c as usize - 48;
            if min > (usize::MAX - d) / 10 {
                return Err(Error::from("quantifier value is too large"));
            }
            proof {
                assert(min * 10 + d <= usize::MAX) by (nonlinear_arith)
                    requires
                        min <= (usize::MAX - d) / 10,
                        d <= 9,
                ;
            }
            min = min * 10 + d;
            i += 1;
        } else {
            return Err(Error::from("Non-numeric character in quantifier range"));
        }
    }
    while i < input.len()
        invariant
            pos <= i <= input@.len(),
            target == spec_read_quantifier(input@, pos as int),
            target == spec_quantifier_max(input@, i as int, min as int, opt_view(max)),
        decreases input@.len() - i,
    {
        let c = input[i];
        if c == '}' {
            return Ok(((min, max), i + 1));
        }
        if '0' <= c && c <= '9' {
            let d = c as usize - 48;
            let prev = match max {
                Some(m) => m,
                None => 0,
            };
            if prev > (usize::MAX - d) / 10 {
                return Err(Error::from("quantifier value is too large"));
            }
            proof {
                assert(prev * 10 + d <= usize::MAX) by (nonlinear_arith)
                    requires
                        prev <= (usize::MAX - d) / 10,
                        d <= 9,
                ;
            }
            max = Some(prev * 10 + d);
            i += 1;
        } else {
            return Err(Error::from("Non-numeric character in quantifier range"));
        }
    }
    Ok(((min, max), i))
}

/// Reading a quantifier never moves backwards and stays inside the input.
pub proof fn lemma_quantifier_min_bounds(input: Seq<char>, i: int, mn: int)
    requires
        0 <= i <= input.len(),
    ensures
        spec_quantifier_min(input, i, mn) matches Some(p) ==> i <= p.1 <= input.len(),
    decreases input.len() - i, 1int,
{
    if 0 <= i < input.len() {
        if input[i] == ',' {
            lemma_quantifier_max_bounds(input, i + 1, mn, None);
        } else if input[i] != '}' && crate::state::spec_is_digit(input[i]) {
            let d = crate::alphabet::digit_val(input[i]);
            if !(mn > (usize::MAX - d) / 10) {
                lemma_quantifier_min_bounds(input, i + 1, mn * 10 + d);
            }
        }
    }
}

/// Reading the maximum never moves backwards and stays inside the input.
pub proof fn lemma_quantifier_max_bounds(input: Seq<char>, i: int, mn: int, mx: Option<int>)
    requires
        0 <= i <= input.len(),
    ensures
        spec_quantifier_max(input, i, mn, mx) matches Some(p) ==> i <= p.1 <= input.len(),
    decreases input.len() - i, 0int,
{
    if 0 <= i < input.len() {
        if input[i] != '}' && crate::state::spec_is_digit(input[i]) {
            let d = crate::alphabet::digit_val(input[i]);
            let prev = match mx {
                Some(m) => m,
                None => 0int,
            };
            if !(prev > (usize::MAX - d) / 10) {
                lemma_quantifier_max_bounds(input, i + 1, mn, Some(prev * 10 + d));
            }
        }
    }
}

/// `w` repeated `k` times.
pub open spec fn repeat_word(w: Seq<char>, k: int) -> Seq<char>
    decreases k,
{
    if k <= 0 {
        Seq::<char>::empty()
    } else {
        repeat_word(w, k - 1) + w
    }
}

/// The expanded form of `w{mn}` / `w{mn,}` / `w{mn,mx}`: the mandatory
/// copies, then either optional copies or a trailing `+`.
pub open spec fn expanded_word(w: Seq<char>, mn: int, mx: Option<int>) -> Seq<char> {
    match mx {
        Some(mx) => repeat_word(w, mn) + repeat_word(
            w + seq!['?'],
            if mx > mn {
                mx - mn
            } else {
                0
            },
        ),
        None => repeat_word(w, mn).push('+'),
    }
}

/// One pass of quantifier expansion from position `i` with the given word
/// stack: `None` on a trailing backslash, an unmatched `)`, an operator
/// word before `{`, or an ill-formed quantifier.
pub open spec fn expand_steps(s: Seq<char>, i: int, stack: Seq<Seq<char>>) -> Option<
    Seq<Seq<char>>,
>
    decreases s.len() - i,
{
    if !(0 <= i < s.len()) {
        Some(stack)
    } else if s[i] == '\\' {
        if i + 1 >= s.len() {
            None
        } else {
            expand_steps(s, i + 2, stack.push(seq![s[i], s[i + 1]]))
        }
    } else if s[i] == ')' {
        match spec_find_open(stack) {
            None => None,
            Some(k) => expand_steps(
                s,
                i + 1,
                stack.subrange(0, k).push(
                    concat_words(stack.subrange(k, stack.len() as int)).push(')'),
                ),
            ),
        }
    } else if s[i] == '{' {
        if stack.len() == 0 {
            expand_steps(s, i + 1, stack)
        } else {
            let word = stack.last();
            if word == seq!['('] || word == seq!['|'] || word == seq!['*'] || word == seq!['?']
                || word == seq!['+'] {
                None
            } else {
                match spec_read_quantifier(s, i + 1) {
                    None => None,
                    Some(q) => if i < q.1 <= s.len() {
                        expand_steps(s, q.1, stack.drop_last().push(expanded_word(word, q.0.0, q.0.1)))
                    } else {
                        Some(stack)
                    },
                }
            }
        }
    } else {
        expand_steps(s, i + 1, stack.push(seq![s[i]]))
    }
}

/// What quantifier expansion yields on a whole source string.
pub open spec fn spec_expand_quantifiers(s: Seq<char>) -> Option<Seq<char>> {
    match expand_steps(s, 0, Seq::<Seq<char>>::empty()) {
        None => None,
        Some(st) => Some(concat_words(st)),
    }
}

/// Rewrites every `{..}` quantifier into `*`-free syntax: `w{l}` becomes
/// `l` copies of `w`, `w{l,u}` appends `u - l` copies of `w?`, and `w{l,}`
/// appends `+` to the last mandatory copy. Parenthesised words are
/// expanded as a whole; escapes are kept together.
pub fn expand_quantifiers(expr: &str) -> (r: Result<String, Error>)
    ensures
        ({
            let s = spec_expand_quantifiers(expr@);
            match (r, s) {
                (Ok(out), Some(sv)) => out@ == sv,
                (Err(e), None) => true,
                _ => false,
            }
        }),
{
    let chars = str_to_chars(expr);
    let ghost target = expand_steps(chars@, 0, Seq::<Seq<char>>::empty());
    let mut stack: Vec<Vec<char>> = Vec::new();
    let mut i: usize = 0;
    proof {
        assert(word_views(stack@) =~= Seq::<Seq<char>>::empty());
    }
    while i < chars.len()
        invariant
            chars@ == expr@,
            i <= chars@.len(),
            target == expand_steps(chars@, 0, Seq::<Seq<char>>::empty()),
            expand_steps(chars@, i as int, word_views(stack@)) == target,
        decreases chars@.len() - i,
    {
        let ghost i0 = i as int;
        let ghost st0 = stack@;
        let ghost views0 = word_views(stack@);
        let c = chars[i];
        if c == '\\' {
            if i + 1 >= chars.len() {
                return Err(Error::from("\\ does not escape anything"));
            }
            let mut w: Vec<char> = Vec::new();
            w.push('\\');
            w.push(chars[i + 1]);
            proof {
                assert(w@ =~= seq![chars@[i0], chars@[i0 + 1]]);
                lemma_word_views_push(st0, w);
            }
            stack.push(w);
            i += 2;
            proof {
                assert(word_views(stack@) == views0.push(seq![chars@[i0], chars@[i0 + 1]]));
                assert(expand_steps(chars@, i0, views0) == expand_steps(
                    chars@,
                    i as int,
                    word_views(stack@),
                ));
            }
        } else if c == ')' {
            // Collapse everything back to the matching open parenthesis
            // into a single word.
            let open = match find_open(&stack) {
                Some(k) => k,
                None => {
                    return Err(Error::from("Unmatched marking paranthesis ')'"));
                }
            };
            let mut curr: Vec<char> = Vec::new();
            proof {
                assert(curr@ =~= concat_words(views0.subrange(open as int, open as int)));
            }
            let mut j = open;
            while j < stack.len()
                invariant
                    views0 == word_views(stack@),
                    open <= j <= stack@.len(),
                    curr@ == concat_words(views0.subrange(open as int, j as int)),
                decreases stack@.len() - j,
            {
                append_chars(&mut curr, &stack[j]);
                proof {
                    assert(views0.subrange(open as int, j + 1).drop_last() =~= views0.subrange(
                        open as int,
                        j as int,
                    ));
                    assert(views0.subrange(open as int, j + 1).last() == stack@[j as int]@);
                }
                j += 1;
            }
            curr.push(')');
            proof {
                lemma_word_views_subrange(st0, 0, open as int);
            }
            stack.truncate(open);
            proof {
                lemma_word_views_push(st0.subrange(0, open as int), curr);
            }
            stack.push(curr);
            i += 1;
            proof {
                assert(curr@ =~= concat_words(views0.subrange(open as int, views0.len() as int))
                    .push(')'));
                assert(word_views(stack@) == views0.subrange(0, open as int).push(
                    concat_words(views0.subrange(open as int, views0.len() as int)).push(')'),
                ));
                assert(expand_steps(chars@, i0, views0) == expand_steps(
                    chars@,
                    i as int,
                    word_views(stack@),
                ));
            }
        } else if c == '{' {
            if stack.len() > 0 {
                let ghost word0 = views0.last();
                let word = match stack.pop() {
                    Some(w) => w,
                    None => {
                        proof {
                            assert(false);
                        }
                        Vec::new()
                    }
                };
                proof {
                    assert(word@ == word0);
                    lemma_word_views_subrange(st0, 0, st0.len() - 1);
                    assert(st0.drop_last() =~= st0.subrange(0, st0.len() - 1));
                    assert(views0.drop_last() =~= views0.subrange(0, views0.len() - 1));
                    assert(word_views(stack@) == views0.drop_last());
                }
                if is_single(&word, '(') || is_single(&word, '|') || is_single(&word, '*')
                    || is_single(&word, '?') || is_single(&word, '+') {
                    return Err(
                        Error::from(
                            "Invalid preceeding regular expression prior to quantifier expression",
                        ),
                    );
                }
                let ((mn, mx), ni) = match read_quantifier(&chars, i + 1) {
                    Ok(x) => x,
                    Err(e) => {
                        return Err(e);
                    }
                };
                proof {
                    lemma_quantifier_min_bounds(chars@, i + 1, 0);
                }
                i = ni;
                let mut curr: Vec<char> = Vec::new();
                let mut reps: usize = 0;
                while reps < mn
                    invariant
                        reps <= mn,
                        curr@ == repeat_word(word@, reps as int),
                    decreases mn - reps,
                {
                    append_chars(&mut curr, &word);
                    reps += 1;
                }
                match mx {
                    Some(mx) => {
                        let opt = if mx > mn {
                            mx - mn
                        } else {
                            0
                        };
                        let mut reps: usize = 0;
                        while reps < opt
                            invariant
                                reps <= opt,
                            curr@ == repeat_word(word@, mn as int) + repeat_word(
                                word@ + seq!['?'],
                                reps as int,
                            ),
                        decreases opt - reps,
                        {
                            append_chars(&mut curr, &word);
                            curr.push('?');
                            proof {
                                assert(curr@ =~= repeat_word(word@, mn as int) + repeat_word(
                                    word@ + seq!['?'],
                                    reps + 1,
                                ));
                            }
                            reps += 1;
                        }
                        proof {
                            assert(curr@ =~= expanded_word(word0, mn as int, opt_view(Some(mx))));
                        }
                    }
                    None => {
                        curr.push('+');
                        proof {
                            assert(curr@ =~= expanded_word(word0, mn as int, opt_view(
                                None::<usize>,
                            )));
                        }
                    }
                }
                let ghost st1 = stack@;
                stack.push(curr);
                proof {
                    lemma_word_views_push(st1, curr);
                    assert(word_views(stack@) == views0.drop_last().push(
                        expanded_word(word0, mn as int, opt_view(mx)),
                    ));
                    assert(expand_steps(chars@, i0, views0) == expand_steps(
                        chars@,
                        i as int,
                        word_views(stack@),
                    ));
                }
            } else {
                i += 1;
                proof {
                    assert(views0.len() == 0);
                    assert(expand_steps(chars@, i0, views0) == expand_steps(
                        chars@,
                        i as int,
                        word_views(stack@),
                    ));
                }
            }
        } else {
            let mut w: Vec<char> = Vec::new();
            w.push(c);
            proof {
                assert(w@ =~= seq![chars@[i0]]);
                lemma_word_views_push(st0, w);
            }
            stack.push(w);
            i += 1;
            proof {
                assert(word_views(stack@) == views0.push(seq![chars@[i0]]));
                assert(expand_steps(chars@, i0, views0) == expand_steps(
                    chars@,
                    i as int,
                    word_views(stack@),
                ));
            }
        }
    }
    let ghost views = word_views(stack@);
    proof {
        assert(target == Some(views));
    }
    let mut out: Vec<char> = Vec::new();
    let mut j: usize = 0;
    proof {
        assert(out@ =~= concat_words(views.subrange(0, 0)));
    }
    while j < stack.len()
        invariant
            views == word_views(stack@),
            j <= stack@.len(),
            out@ == concat_words(views.subrange(0, j as int)),
        decreases stack@.len() - j,
    {
        append_chars(&mut out, &stack[j]);
        proof {
            assert(views.subrange(0, j + 1).drop_last() =~= views.subrange(0, j as int));
            assert(views.subrange(0, j + 1).last() == stack@[j as int]@);
        }
        j += 1;
    }
    proof {
        assert(views.subrange(0, views.len() as int) =~= views);
    }
    Ok(chars_to_string(&out))
}

/// Whether a concatenation marker belongs between the previous character
/// (with its escape state) and the current one.
fn needs_concat_marker(prev: char, prev_was_escaped: bool, c: char) -> (r: bool)
    ensures
        r == ((prev_was_escaped || !(prev == '(' || prev == '|' || prev == '\\')) && !(c == ')'
            || c == '|' || c == '*' || c == '?' || c == '+')),
{
    (prev_was_escaped || !(prev == '(' || prev == '|' || prev == '\\')) && !(c == ')' || c == '|'
        || c == '*' || c == '?' || c == '+')
}

/// The characters from `i` on, with a concatenation marker inserted before
/// each character that concatenates with its (possibly escaped)
/// predecessor.
pub open spec fn marker_steps(s: Seq<char>, i: int, prev: char, prev_esc: bool) -> Seq<char>
    decreases s.len() - i,
{
    if !(0 <= i < s.len()) {
        Seq::<char>::empty()
    } else {
        (if (prev_esc || !(prev == '(' || prev == '|' || prev == '\\')) && !(s[i] == ')' || s[i]
            == '|' || s[i] == '*' || s[i] == '?' || s[i] == '+') {
            seq![CONCAT_CHAR, s[i]]
        } else {
            seq![s[i]]
        }) + marker_steps(s, i + 1, s[i], !prev_esc && prev == '\\')
    }
}

/// What inserting concatenation markers yields: `None` when the input
/// already holds the marker character.
pub open spec fn spec_add_concat_char(s: Seq<char>) -> Option<Seq<char>> {
    if s.contains(CONCAT_CHAR) {
        None
    } else if s.len() == 0 {
        Some(Seq::<char>::empty())
    } else {
        Some(seq![s[0]] + marker_steps(s, 1, s[0], false))
    }
}

/// Inserts the explicit concatenation marker between adjacent tokens, so
/// that the postfix conversion can treat concatenation as an operator.
/// Escaped characters keep their escapes. An input already holding the
/// marker is rejected.
pub fn add_concat_char(expr: &str) -> (r: Result<String, Error>)
    ensures
        ({
            let s = spec_add_concat_char(expr@);
            match (r, s) {
                (Ok(out), Some(sv)) => out@ == sv,
                (Err(e), None) => true,
                _ => false,
            }
        }),
{
    let chars = str_to_chars(expr);
    let mut i: usize = 0;
    while i < chars.len()
        invariant
            chars@ == expr@,
            i <= chars@.len(),
            forall|k: int| 0 <= k < i ==> chars@[k] != CONCAT_CHAR,
        decreases chars@.len() - i,
    {
        if chars[i] == CONCAT_CHAR {
            proof {
                assert(chars@.contains(CONCAT_CHAR));
            }
            return Err(Error::from("Illegal character in the expression"));
        }
        i += 1;
    }
    proof {
        if chars@.contains(CONCAT_CHAR) {
            let w = choose|w: int| 0 <= w < chars@.len() && chars@[w] == CONCAT_CHAR;
            assert(false);
        }
    }
    let mut result: Vec<char> = Vec::new();
    if chars.len() > 0 {
        let ghost whole = seq![chars@[0]] + marker_steps(chars@, 1, chars@[0], false);
        result.push(chars[0]);
        let mut prev = chars[0];
        let mut prev_was_escaped = false;
        let mut i: usize = 1;
        while i < chars.len()
            invariant
                chars@ == expr@,
                chars@.len() > 0,
                whole == seq![chars@[0]] + marker_steps(chars@, 1, chars@[0], false),
                1 <= i <= chars@.len(),
                whole == result@ + marker_steps(chars@, i as int, prev, prev_was_escaped),
            decreases chars@.len() - i,
        {
            let c = chars[i];
            let ghost pre = result@;
            let ghost step = marker_steps(chars@, i as int, prev, prev_was_escaped);
            if needs_concat_marker(prev, prev_was_escaped, c) {
                result.push(CONCAT_CHAR);
            }
            result.push(c);
            proof {
                assert(whole =~= result@ + marker_steps(
                    chars@,
                    i + 1,
                    c,
                    !prev_was_escaped && prev == '\\',
                ));
            }
            prev_was_escaped = !prev_was_escaped && prev == '\\';
            prev = c;
            i += 1;
        }
        proof {
            assert(marker_steps(chars@, i as int, prev, prev_was_escaped) =~= Seq::<char>::empty());
            assert(whole =~= result@);
        }
    }
    Ok(chars_to_string(&result))
}

/// What expanding quantifiers and inserting markers yields.
pub open spec fn spec_modify_expression(s: Seq<char>) -> Option<Seq<char>> {
    match spec_expand_quantifiers(s) {
        None => None,
        Some(e) => spec_add_concat_char(e),
    }
}

/// Expands quantifiers and inserts concatenation markers.
pub fn modify_expression(expr: &str) -> (r: Result<String, Error>)
    ensures
        ({
            let s = spec_modify_expression(expr@);
            match (r, s) {
                (Ok(out), Some(sv)) => out@ == sv,
                (Err(e), None) => true,
                _ => false,
            }
        }),
{
    match expand_quantifiers(expr) {
        Ok(s) => add_concat_char(s.as_str()),
        Err(e) => Err(e),
    }
}

/// The precedence of an operator in the infix syntax.
pub open spec fn spec_precedence(c: char) -> int {
    if c == '|' {
        0
    } else if c == CONCAT_CHAR {
        1
    } else {
        2
    }
}

/// The precedence of an operator in the infix syntax.
fn precedence(c: char) -> (r: u32)
    ensures
        r == spec_precedence(c),
{
    if c == '|' {
        0
    } else if c == CONCAT_CHAR {
        1
    } else {
        2
    }
}

/// Moves operators of precedence at least `cp` from the operator stack to
/// the output, stopping at an open parenthesis.
pub open spec fn pop_ops(postfix: Seq<char>, ops: Seq<char>, cp: int) -> (Seq<char>, Seq<char>)
    decreases ops.len(),
{
    if ops.len() == 0 {
        (postfix, ops)
    } else if ops.last() == '(' || spec_precedence(ops.last()) < cp {
        (postfix, ops)
    } else {
        pop_ops(postfix.push(ops.last()), ops.drop_last(), cp)
    }
}

/// Moves operators to the output up to and including the matching open
/// parenthesis, which is discarded; an exhausted stack is left empty.
pub open spec fn pop_until_paren(postfix: Seq<char>, ops: Seq<char>) -> (Seq<char>, Seq<char>)
    decreases ops.len(),
{
    if ops.len() == 0 {
        (postfix, ops)
    } else if ops.last() == '(' {
        (postfix, ops.drop_last())
    } else {
        pop_until_paren(postfix.push(ops.last()), ops.drop_last())
    }
}

/// Flushes the remaining operators to the output; a leftover open
/// parenthesis is an error.
pub open spec fn flush_ops(postfix: Seq<char>, ops: Seq<char>) -> Option<Seq<char>>
    decreases ops.len(),
{
    if ops.len() == 0 {
        Some(postfix)
    } else if ops.last() == '(' {
        None
    } else {
        flush_ops(postfix.push(ops.last()), ops.drop_last())
    }
}

/// One pass of the shunting-yard conversion from position `i`: `None` on a
/// trailing backslash.
pub open spec fn postfix_steps(s: Seq<char>, i: int, postfix: Seq<char>, ops: Seq<char>) -> Option<
    (Seq<char>, Seq<char>),
>
    decreases s.len() - i,
{
    if !(0 <= i < s.len()) {
        Some((postfix, ops))
    } else if s[i] == '\\' {
        if i + 1 >= s.len() {
            None
        } else {
            postfix_steps(s, i + 2, postfix + seq![s[i], s[i + 1]], ops)
        }
    } else if s[i] == '|' || s[i] == CONCAT_CHAR || s[i] == '*' || s[i] == '?' || s[i] == '+' {
        let pp = pop_ops(postfix, ops, spec_precedence(s[i]));
        postfix_steps(s, i + 1, pp.0, pp.1.push(s[i]))
    } else if s[i] == '(' {
        postfix_steps(s, i + 1, postfix, ops.push(s[i]))
    } else if s[i] == ')' {
        let pp = pop_until_paren(postfix, ops);
        postfix_steps(s, i + 1, pp.0, pp.1)
    } else {
        postfix_steps(s, i + 1, postfix.push(s[i]), ops)
    }
}

/// What the whole conversion to postfix notation yields: quantifier
/// expansion, concatenation markers, then the shunting yard.
pub open spec fn spec_to_postfix(s: Seq<char>) -> Option<Seq<char>> {
    match spec_modify_expression(s) {
        None => None,
        Some(m) => match postfix_steps(m, 0, Seq::<char>::empty(), Seq::<char>::empty()) {
            None => None,
            Some(pp) => flush_ops(pp.0, pp.1),
        },
    }
}

/// Moves operators of precedence at least `cp` from the stack to the
/// output, stopping at an open parenthesis.
pub(crate) fn drain_ops(postfix: &mut Vec<char>, ops: &mut Vec<char>, cp: u32)
    ensures
        (final(postfix)@, final(ops)@) == pop_ops(old(postfix)@, old(ops)@, cp as int),
{
    let ghost p0 = postfix@;
    let ghost o0 = ops@;
    while ops.len() > 0
        invariant
            p0 == old(postfix)@,
            o0 == old(ops)@,
            pop_ops(p0, o0, cp as int) == pop_ops(postfix@, ops@, cp as int),
        decreases ops@.len(),
    {
        let op = ops[ops.len() - 1];
        if op == '(' || precedence(op) < cp {
            return ;
        }
        ops.pop();
        postfix.push(op);
    }
}

/// Moves operators to the output up to and including the matching open
/// parenthesis, which is discarded.
pub(crate) fn drain_until_paren(postfix: &mut Vec<char>, ops: &mut Vec<char>)
    ensures
        (final(postfix)@, final(ops)@) == pop_until_paren(old(postfix)@, old(ops)@),
{
    let ghost p0 = postfix@;
    let ghost o0 = ops@;
    while ops.len() > 0
        invariant
            p0 == old(postfix)@,
            o0 == old(ops)@,
            pop_until_paren(p0, o0) == pop_until_paren(postfix@, ops@),
        decreases ops@.len(),
    {
        let op = match ops.pop() {
            Some(x) => x,
            None => {
                proof {
                    assert(false);
                }
                ' '
            }
        };
        if op == '(' {
            return ;
        }
        postfix.push(op);
    }
}

/// Flushes the remaining operators to the output; reports a leftover open
/// parenthesis.
fn flush_operators(postfix: &mut Vec<char>, ops: &mut Vec<char>) -> (r: bool)
    ensures
        r ==> flush_ops(old(postfix)@, old(ops)@) == Some(final(postfix)@),
        !r ==> flush_ops(old(postfix)@, old(ops)@) is None,
{
    let ghost p0 = postfix@;
    let ghost o0 = ops@;
    while ops.len() > 0
        invariant
            p0 == old(postfix)@,
            o0 == old(ops)@,
            flush_ops(p0, o0) == flush_ops(postfix@, ops@),
        decreases ops@.len(),
    {
        let op = match ops.pop() {
            Some(x) => x,
            None => {
                proof {
                    assert(false);
                }
                ' '
            }
        };
        if op == '(' {
            return false;
        }
        postfix.push(op);
    }
    true
}

/// Converts the expression to postfix notation by the shunting-yard
/// method, after expanding quantifiers and inserting concatenation
/// markers. Escape pairs travel as single tokens.
pub fn to_postfix(expr: &str) -> (r: Result<String, Error>)
    ensures
        ({
            let s = spec_to_postfix(expr@);
            match (r, s) {
                (Ok(out), Some(sv)) => out@ == sv,
                (Err(e), None) => true,
                _ => false,
            }
        }),
{
    let modified = match modify_expression(expr) {
        Ok(s) => s,
        Err(e) => {
            return Err(e);
        }
    };
    let chars = str_to_chars(modified.as_str());
    let ghost target = postfix_steps(chars@, 0, Seq::<char>::empty(), Seq::<char>::empty());
    let mut postfix: Vec<char> = Vec::new();
    let mut ops: Vec<char> = Vec::new();
    let mut i: usize = 0;
    while i < chars.len()
        invariant
            chars@ == spec_modify_expression(expr@)->0,
            spec_modify_expression(expr@) is Some,
            target == postfix_steps(chars@, 0, Seq::<char>::empty(), Seq::<char>::empty()),
            i <= chars@.len(),
            postfix_steps(chars@, i as int, postfix@, ops@) == target,
        decreases chars@.len() - i,
    {
        let ghost i0 = i as int;
        let ghost pf0 = postfix@;
        let ghost op0 = ops@;
        let c = chars[i];
        if c == '\\' {
            postfix.push(c);
            if i + 1 >= chars.len() {
                return Err(Error::from("\\ does not escape anything"));
            }
            postfix.push(chars[i + 1]);
            i += 2;
            proof {
                assert(postfix@ =~= pf0 + seq![chars@[i0], chars@[i0 + 1]]);
                assert(postfix_steps(chars@, i0, pf0, op0) == postfix_steps(
                    chars@,
                    i as int,
                    postfix@,
                    ops@,
                ));
            }
        } else if c == '|' || c == CONCAT_CHAR || c == '*' || c == '?' || c == '+' {
            let cp = precedence(c);
            drain_ops(&mut postfix, &mut ops, cp);
            ops.push(c);
            i += 1;
            proof {
                assert(postfix_steps(chars@, i0, pf0, op0) == postfix_steps(
                    chars@,
                    i as int,
                    postfix@,
                    ops@,
                ));
            }
        } else if c == '(' {
            ops.push(c);
            i += 1;
            proof {
                assert(postfix_steps(chars@, i0, pf0, op0) == postfix_steps(
                    chars@,
                    i as int,
                    postfix@,
                    ops@,
                ));
            }
        } else if c == ')' {
            drain_until_paren(&mut postfix, &mut ops);
            i += 1;
            proof {
                assert(postfix_steps(chars@, i0, pf0, op0) == postfix_steps(
                    chars@,
                    i as int,
                    postfix@,
                    ops@,
                ));
            }
        } else {
            postfix.push(c);
            i += 1;
            proof {
                assert(postfix@ =~= pf0.push(chars@[i0]));
                assert(postfix_steps(chars@, i0, pf0, op0) == postfix_steps(
                    chars@,
                    i as int,
                    postfix@,
                    ops@,
                ));
            }
        }
    }
    proof {
        assert(target == Some((postfix@, ops@)));
    }
    if !flush_operators(&mut postfix, &mut ops) {
        return Err(Error::from("Unmatched marking paranthesis '('"));
    }
    Ok(chars_to_string(&postfix))
}

/// The mathematical values of a stack of automata.
pub open spec fn auto_views(st: Seq<Automata>) -> Seq<AutoView> {
    Seq::new(st.len(), |i: int| st[i]@)
}

/// Pushing an automaton onto the stack pushes its view.
proof fn lemma_auto_views_push(st: Seq<Automata>, a: Automata)
    ensures
        auto_views(st.push(a)) == auto_views(st).push(a@),
{
    assert(auto_views(st.push(a)) =~= auto_views(st).push(a@));
}

/// Popping an automaton drops the last view.
proof fn lemma_auto_views_drop(st: Seq<Automata>)
    requires
        st.len() > 0,
    ensures
        auto_views(st.drop_last()) == auto_views(st).drop_last(),
{
    assert(auto_views(st.drop_last()) =~= auto_views(st).drop_last());
}

/// The automaton an escape pair denotes in the postfix syntax: a word
/// boundary, a character class, an escaped metacharacter or a control
/// character; anything else is an unknown escape.
pub open spec fn escape_auto(d: char) -> Option<AutoView> {
    if d == 'b' {
        Some(from_anchor_spec(Anchor::WordBoundary))
    } else if d == 'd' {
        Some(from_lambda_spec(Lambda::Digit))
    } else if d == 'D' {
        Some(from_lambda_spec(Lambda::NotDigit))
    } else if d == 'w' {
        Some(from_lambda_spec(Lambda::Alphanumeric))
    } else if d == 'W' {
        Some(from_lambda_spec(Lambda::NotAlphanumeric))
    } else if d == 's' {
        Some(from_lambda_spec(Lambda::Whitespace))
    } else if d == 'S' {
        Some(from_lambda_spec(Lambda::NotWhitespace))
    } else if d == '^' || d == '$' || d == '|' || d == '*' || d == '?' || d == '+' || d == '.'
        || d == '\\' || d == '(' || d == ')' || d == '{' || d == '}' {
        Some(from_token_spec(d))
    } else if d == 't' {
        Some(from_token_spec('\t'))
    } else if d == 'n' {
        Some(from_token_spec('\n'))
    } else if d == 'r' {
        Some(from_token_spec('\r'))
    } else if d == 'v' {
        Some(from_token_spec('\x0b'))
    } else if d == 'f' {
        Some(from_token_spec('\x0c'))
    } else if d == '0' {
        Some(from_token_spec('\0'))
    } else {
        None
    }
}

/// One pass of the postfix fold from position `i` over an operand stack:
/// `None` on a missing operand, a trailing backslash or an unknown escape.
pub open spec fn parse_steps(s: Seq<char>, i: int, stack: Seq<AutoView>) -> Option<Seq<AutoView>>
    decreases s.len() - i,
{
    if !(0 <= i < s.len()) {
        Some(stack)
    } else if s[i] == '^' {
        parse_steps(s, i + 1, stack.push(from_anchor_spec(Anchor::Start)))
    } else if s[i] == '$' {
        parse_steps(s, i + 1, stack.push(from_anchor_spec(Anchor::End)))
    } else if s[i] == '|' {
        if stack.len() < 2 {
            None
        } else {
            parse_steps(
                s,
                i + 1,
                stack.drop_last().drop_last().push(
                    or_spec(stack[stack.len() - 2], stack[stack.len() - 1]),
                ),
            )
        }
    } else if s[i] == CONCAT_CHAR {
        if stack.len() < 2 {
            None
        } else {
            parse_steps(
                s,
                i + 1,
                stack.drop_last().drop_last().push(
                    concat_spec(stack[stack.len() - 2], stack[stack.len() - 1]),
                ),
            )
        }
    } else if s[i] == '*' {
        if stack.len() < 1 {
            None
        } else {
            parse_steps(s, i + 1, stack.drop_last().push(closure_spec(stack.last())))
        }
    } else if s[i] == '?' {
        if stack.len() < 1 {
            None
        } else {
            parse_steps(s, i + 1, stack.drop_last().push(optional_spec(stack.last())))
        }
    } else if s[i] == '+' {
        if stack.len() < 1 {
            None
        } else {
            parse_steps(s, i + 1, stack.drop_last().push(plus_spec(stack.last())))
        }
    } else if s[i] == '.' {
        parse_steps(s, i + 1, stack.push(from_lambda_spec(Lambda::Any)))
    } else if s[i] == '\\' {
        if i + 1 >= s.len() {
            None
        } else {
            match escape_auto(s[i + 1]) {
                Some(av) => parse_steps(s, i + 2, stack.push(av)),
                None => None,
            }
        }
    } else {
        parse_steps(s, i + 1, stack.push(from_token_spec(s[i])))
    }
}

/// What the whole postfix pipeline compiles a source string to: `None`
/// when any stage fails or the final stack does not hold exactly one
/// automaton.
pub open spec fn spec_postfix_parse(s: Seq<char>) -> Option<AutoView> {
    match spec_to_postfix(s) {
        None => None,
        Some(p) => match parse_steps(p, 0, Seq::<AutoView>::empty()) {
            None => None,
            Some(st) => if st.len() == 1 {
                Some(st[0])
            } else {
                None
            },
        },
    }
}

/// Pops one operand off the automaton stack, or reports an ill-formed
/// postfix string.
fn pop_operand(stack: &mut Vec<Automata>) -> (r: Result<Automata, Error>)
    ensures
        r matches Ok(a) ==> old(stack)@.len() > 0 && a == old(stack)@.last() && final(stack)@
            == old(stack)@.drop_last(),
        r is Err ==> final(stack)@ == old(stack)@ && old(stack)@.len() == 0,
{
    match stack.pop() {
        Some(a) => Ok(a),
        None => Err(Error::from("error popping from stack")),
    }
}

/// Builds the automaton of `expr` by converting it to postfix notation and
/// folding the operators over an operand stack. Succeeds exactly when the
/// postfix pipeline assigns `expr` an automaton, and then returns exactly
/// that automaton.
pub fn parse(expr: &str) -> (r: Result<Automata, Error>)
    ensures
        r matches Ok(a) ==> spec_postfix_parse(expr@) == Some(a@),
        r is Err ==> spec_postfix_parse(expr@) is None,
{
    let postfix_string = match to_postfix(expr) {
        Ok(s) => s,
        Err(e) => {
            return Err(e);
        }
    };
    let postfix = str_to_chars(postfix_string.as_str());
    let ghost pchars = postfix@;
    let ghost target = parse_steps(pchars, 0, Seq::<AutoView>::empty());
    let mut stack: Vec<Automata> = Vec::new();
    let mut i: usize = 0;
    proof {
        assert(auto_views(stack@) =~= Seq::<AutoView>::empty());
    }
    while i < postfix.len()
        invariant
            pchars == postfix@,
            spec_to_postfix(expr@) == Some(pchars),
            target == parse_steps(pchars, 0, Seq::<AutoView>::empty()),
            i <= pchars.len(),
            parse_steps(pchars, i as int, auto_views(stack@)) == target,
        decreases pchars.len() - i,
    {
        let ghost i0 = i as int;
        let ghost st0 = stack@;
        let ghost views0 = auto_views(stack@);
        let c = postfix[i];
        if c == '^' {
            let a = Automata::from_anchor(Anchor::Start);
            proof {
                lemma_auto_views_push(st0, a);
            }
            stack.push(a);
            i += 1;
        } else if c == '$' {
            let a = Automata::from_anchor(Anchor::End);
            proof {
                lemma_auto_views_push(st0, a);
            }
            stack.push(a);
            i += 1;
        } else if c == '|' || c == CONCAT_CHAR {
            let b = match pop_operand(&mut stack) {
                Ok(a) => a,
                Err(e) => {
                    return Err(e);
                }
            };
            let a = match pop_operand(&mut stack) {
                Ok(a) => a,
                Err(e) => {
                    return Err(e);
                }
            };
            proof {
                assert(a == st0[st0.len() - 2] && b == st0[st0.len() - 1]);
                assert(a@ == views0[views0.len() - 2] && b@ == views0[views0.len() - 1]);
                lemma_auto_views_drop(st0);
                lemma_auto_views_drop(st0.drop_last());
                assert(auto_views(stack@) == views0.drop_last().drop_last());
            }
            let ghost st2 = stack@;
            let combined = if c == '|' {
                a.or(b)
            } else {
                a.concat(b)
            };
            proof {
                lemma_auto_views_push(st2, combined);
            }
            stack.push(combined);
            i += 1;
        } else if c == '*' || c == '?' || c == '+' {
            let a = match pop_operand(&mut stack) {
                Ok(a) => a,
                Err(e) => {
                    return Err(e);
                }
            };
            proof {
                assert(a == st0[st0.len() - 1]);
                assert(a@ == views0.last());
                lemma_auto_views_drop(st0);
                assert(auto_views(stack@) == views0.drop_last());
            }
            let ghost st2 = stack@;
            let applied = if c == '*' {
                a.closure()
            } else if c == '?' {
                a.optional()
            } else {
                a.plus()
            };
            proof {
                lemma_auto_views_push(st2, applied);
            }
            stack.push(applied);
            i += 1;
        } else if c == '.' {
            let a = Automata::from_lambda(Lambda::Any);
            proof {
                lemma_auto_views_push(st0, a);
            }
            stack.push(a);
            i += 1;
        } else if c == '\\' {
            if i + 1 >= postfix.len() {
                return Err(Error::from("\\ does not escape anything"));
            }
            let d = postfix[i + 1];
            let a = if d == 'b' {
                Automata::from_anchor(Anchor::WordBoundary)
            } else if d == 'd' {
                Automata::from_lambda(Lambda::Digit)
            } else if d == 'D' {
                Automata::from_lambda(Lambda::NotDigit)
            } else if d == 'w' {
                Automata::from_lambda(Lambda::Alphanumeric)
            } else if d == 'W' {
                Automata::from_lambda(Lambda::NotAlphanumeric)
            } else if d == 's' {
                Automata::from_lambda(Lambda::Whitespace)
            } else if d == 'S' {
                Automata::from_lambda(Lambda::NotWhitespace)
            } else if d == '^' || d == '$' || d == '|' || d == '*' || d == '?' || d == '+'
                || d == '.' || d == '\\' || d == '(' || d == ')' || d == '{' || d == '}' {
                Automata::from_token(d)
            } else if d == 't' {
                Automata::from_token('\t')
            } else if d == 'n' {
                Automata::from_token('\n')
            } else if d == 'r' {
                Automata::from_token('\r')
            } else if d == 'v' {
                Automata::from_token('\x0b')
            } else if d == 'f' {
                Automata::from_token('\x0c')
            } else if d == '0' {
                Automata::from_token('\0')
            } else {
                return Err(Error::from("Unknown escape sequence"));
            };
            proof {
                assert(escape_auto(d) == Some(a@));
                lemma_auto_views_push(st0, a);
            }
            stack.push(a);
            i += 2;
        } else {
            let a = Automata::from_token(c);
            proof {
                lemma_auto_views_push(st0, a);
            }
            stack.push(a);
            i += 1;
        }
        proof {
            assert(parse_steps(pchars, i0, views0) == parse_steps(
                pchars,
                i as int,
                auto_views(stack@),
            ));
        }
    }
    proof {
        assert(target == Some(auto_views(stack@)));
    }
    if stack.len() > 1 {
        return Err(Error::from("Internal error: final stack is too large"));
    }
    let ghost views_end = auto_views(stack@);
    match stack.pop() {
        Some(a) => {
            proof {
                assert(views_end.len() == 1);
                assert(a@ == views_end[0]);
            }
            Ok(a)
        }
        None => Err(Error::from("Internal error: final stack is empty")),
    }
}

} // verus!
