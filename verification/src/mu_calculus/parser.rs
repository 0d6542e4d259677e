//! The text form of formulas.
//!
//! ```text
//! formula := 'true' | 'false'
//!          | UPPER
//!          | '(' formula ('&&' | '||') formula ')'
//!          | '<' action '>' formula
//!          | '[' action ']' formula
//!          | 'mu' SPACES UPPER '.' formula
//!          | 'nu' SPACES UPPER '.' formula
//!          | '%' ... end of line, formula
//! action  := [a-z][a-z0-9_]*
//! ```
//!
//! White space may stand before and behind every formula, and between the
//! variable of a binder and its dot; it must stand between `mu` or `nu`
//! and the variable.

use crate::mu_calculus::Formula;
use crate::mu_calculus::FormulaView;
use crate::text::chars_of;
use crate::text::failure;
use crate::text::failure_text;
use crate::text::has;
use crate::text::is_digit;
use crate::text::skip_spaces;
use crate::text::spaces;
use crate::text::string_of;
use vstd::prelude::*;

verus! {

/// A letter from `A` to `Z`.
pub open spec fn is_upper(c: char) -> bool {
    'A' <= c <= 'Z'
}

/// A letter from `a` to `z`.
pub open spec fn is_lower(c: char) -> bool {
    'a' <= c <= 'z'
}

/// A character that may follow the first of an action name.
pub open spec fn is_action_char(c: char) -> bool {
    is_lower(c) || is_digit(c) || c == '_'
}

/// The number of characters from `i` on that may follow the first of an
/// action name.
pub open spec fn action_tail(s: Seq<char>, i: int) -> nat
    decreases s.len() - i,
{
    if 0 <= i < s.len() && is_action_char(s[i]) {
        1 + action_tail(s, i + 1)
    } else {
        0
    }
}

/// The length of the longest action name at `i`; 0 if none stands there.
pub open spec fn action(s: Seq<char>, i: int) -> nat {
    if 0 <= i < s.len() && is_lower(s[i]) {
        1 + action_tail(s, i + 1)
    } else {
        0
    }
}

/// The number of characters from `i` on up to the end of the line.
pub open spec fn line(s: Seq<char>, i: int) -> nat
    decreases s.len() - i,
{
    if 0 <= i < s.len() && s[i] != '\n' {
        1 + line(s, i + 1)
    } else {
        0
    }
}

/// The formula that stands at `i`, white space before and behind it
/// included, and the number of characters that it takes.
pub open spec fn formula_at(s: Seq<char>, i: int) -> Option<(FormulaView, nat)>
    decreases s.len() - i, 2nat,
{
    let a = spaces(s, i);
    if i < 0 || i + a > s.len() {
        None
    } else {
        match alternative_at(s, i + a) {
            Some((f, n)) => Some((f, a + n + spaces(s, i + a + n))),
            None => None,
        }
    }
}

/// The formula that begins at `i`, and the number of characters that it
/// takes, white space behind its last part included.
pub open spec fn alternative_at(s: Seq<char>, i: int) -> Option<(FormulaView, nat)>
    decreases s.len() - i, 1nat,
{
    if i < 0 || i >= s.len() {
        None
    } else if has(s, i, seq!['t', 'r', 'u', 'e']) {
        Some((FormulaView::True, 4))
    } else if has(s, i, seq!['f', 'a', 'l', 's', 'e']) {
        Some((FormulaView::False, 5))
    } else if is_upper(s[i]) {
        Some((FormulaView::Var { name: s[i] }, 1))
    } else if s[i] == '(' {
        binary_at(s, i)
    } else if s[i] == '<' || s[i] == '[' {
        modal_at(s, i)
    } else if has(s, i, seq!['m', 'u']) || has(s, i, seq!['n', 'u']) {
        binder_at(s, i)
    } else if s[i] == '%' {
        comment_at(s, i)
    } else {
        None
    }
}

/// The conjunction or disjunction in parentheses that begins at `i`.
pub open spec fn binary_at(s: Seq<char>, i: int) -> Option<(FormulaView, nat)>
    decreases s.len() - i, 0nat,
{
    if i < 0 || i >= s.len() {
        None
    } else {
        match formula_at(s, i + 1) {
            Some((f1, n1)) => {
                let k = i + 1 + n1;
                let and = has(s, k, seq!['&', '&']);
                if and || has(s, k, seq!['|', '|']) {
                    match formula_at(s, k + 2) {
                        Some((f2, n2)) => if k + 2 + n2 < s.len() && s[k + 2 + n2] == ')' {
                            if and {
                                Some(
                                    (
                                        FormulaView::And { f1: Box::new(f1), f2: Box::new(f2) },
                                        n1 + n2 + 4,
                                    ),
                                )
                            } else {
                                Some(
                                    (
                                        FormulaView::Or { f1: Box::new(f1), f2: Box::new(f2) },
                                        n1 + n2 + 4,
                                    ),
                                )
                            }
                        } else {
                            None
                        },
                        None => None,
                    }
                } else {
                    None
                }
            },
            None => None,
        }
    }
}

/// The formula under a modality that begins at `i` with `<` or `[`.
pub open spec fn modal_at(s: Seq<char>, i: int) -> Option<(FormulaView, nat)>
    decreases s.len() - i, 0nat,
{
    if i < 0 || i >= s.len() {
        None
    } else {
        let n = action(s, i + 1);
        let close = if s[i] == '<' {
            '>'
        } else {
            ']'
        };
        if n > 0 && i + 1 + n < s.len() && s[i + 1 + n] == close {
            match formula_at(s, i + 2 + n) {
                Some((f, m)) => if s[i] == '<' {
                    Some(
                        (
                            FormulaView::Diamond {
                                step: s.subrange(i + 1, i + 1 + n),
                                f: Box::new(f),
                            },
                            n + m + 2,
                        ),
                    )
                } else {
                    Some(
                        (
                            FormulaView::Box { step: s.subrange(i + 1, i + 1 + n), f: Box::new(f) },
                            n + m + 2,
                        ),
                    )
                },
                None => None,
            }
        } else {
            None
        }
    }
}

/// The fixed-point formula that begins at `i` with `mu` or `nu`.
pub open spec fn binder_at(s: Seq<char>, i: int) -> Option<(FormulaView, nat)>
    decreases s.len() - i, 0nat,
{
    if i < 0 || i >= s.len() {
        None
    } else {
        let a = spaces(s, i + 2);
        let b = spaces(s, i + 3 + a);
        let dot = i + 3 + a + b;
        if a > 0 && i + 2 + a < s.len() && is_upper(s[i + 2 + a]) && dot < s.len() && s[dot]
            == '.' {
            match formula_at(s, dot + 1) {
                Some((f, n)) => if s[i] == 'm' {
                    Some((FormulaView::Mu { var: s[i + 2 + a], f: Box::new(f) }, a + b + n + 4))
                } else {
                    Some((FormulaView::Nu { var: s[i + 2 + a], f: Box::new(f) }, a + b + n + 4))
                },
                None => None,
            }
        } else {
            None
        }
    }
}

/// The formula behind the comment that begins at `i` with `%` and ends
/// with its line.
pub open spec fn comment_at(s: Seq<char>, i: int) -> Option<(FormulaView, nat)>
    decreases s.len() - i, 0nat,
{
    if i < 0 || i >= s.len() {
        None
    } else {
        let m = line(s, i + 1);
        if i + 1 + m < s.len() {
            match formula_at(s, i + 1 + m) {
                Some((f, n)) => Some((f, 1 + m + n)),
                None => None,
            }
        } else {
            None
        }
    }
}

/// The formula that the whole of `s` writes, if it writes one.
pub open spec fn formula_of(s: Seq<char>) -> Option<FormulaView> {
    match formula_at(s, 0) {
        Some((f, n)) => if n == s.len() {
            Some(f)
        } else {
            None
        },
        None => None,
    }
}

/// The action names are within the text.
proof fn lemma_action_tail(s: Seq<char>, i: int)
    requires
        0 <= i <= s.len(),
    ensures
        i + action_tail(s, i) <= s.len(),
    decreases s.len() - i,
{
    if i < s.len() && is_action_char(s[i]) {
        lemma_action_tail(s, i + 1);
    }
}

/// Whether `word` stands in `input` at `pos`.
fn matches_at(input: &Vec<char>, pos: usize, word: &Vec<char>) -> (b: bool)
    requires
        pos <= input.len(),
    ensures
        b == has(input@, pos as int, word@),
{
    if word.len() > input.len() - pos {
        return false;
    }
    let mut k: usize = 0;
    while k < word.len()
        invariant
            k <= word.len(),
            pos + word.len() <= input.len(),
            forall|j: int| 0 <= j < k ==> input@[pos + j] == word@[j],
        decreases word.len() - k,
    {
        if input[pos + k] != word[k] {
            proof {
                let part = input@.subrange(pos as int, pos + word@.len());
                assert(part[k as int] != word@[k as int]);
            }
            return false;
        }
        k = k + 1;
    }
    proof {
        assert(input@.subrange(pos as int, pos + word@.len()) =~= word@);
    }
    true
}

/// Whether `c` is a letter from `A` to `Z`.
fn upper(c: char) -> (b: bool)
    ensures
        b == is_upper(c),
{
    'A' <= c && c <= 'Z'
}

/// Whether `c` may follow the first character of an action name.
fn action_char(c: char) -> (b: bool)
    ensures
        b == is_action_char(c),
{
    ('a' <= c && c <= 'z') || ('0' <= c && c <= '9') || c == '_'
}

/// The place behind the longest action name at `pos`; `pos` if none
/// stands there.
fn action_end(input: &Vec<char>, pos: usize) -> (end: usize)
    requires
        pos <= input.len(),
    ensures
        end == pos + action(input@, pos as int),
        end <= input.len(),
{
    if pos < input.len() && 'a' <= input[pos] && input[pos] <= 'z' {
        let mut i: usize = pos + 1;
        while i < input.len() && action_char(input[i])
            invariant
                pos < i <= input.len(),
                i + action_tail(input@, i as int) == pos + 1 + action_tail(input@, pos + 1),
            decreases input.len() - i,
        {
            i = i + 1;
        }
        i
    } else {
        pos
    }
}

/// The place of the end of the line that `pos` is in.
fn line_end(input: &Vec<char>, pos: usize) -> (end: usize)
    requires
        pos <= input.len(),
    ensures
        end == pos + line(input@, pos as int),
        end <= input.len(),
{
    let mut i: usize = pos;
    while i < input.len() && input[i] != '\n'
        invariant
            pos <= i <= input.len(),
            i + line(input@, i as int) == pos + line(input@, pos as int),
        decreases input.len() - i,
    {
        i = i + 1;
    }
    i
}

/// Reads the formula at `pos` with the white space around it, and gives
/// the formula and the place behind it, or the place where no formula
/// could be read on.
pub fn formula(input: &Vec<char>, pos: usize) -> (r: Result<(Formula, usize), usize>)
    requires
        pos <= input.len(),
    ensures
        match r {
            Ok((f, end)) => pos <= end <= input.len() && formula_at(input@, pos as int) == Some(
                (f@, (end - pos) as nat),
            ),
            Err(at) => formula_at(input@, pos as int) is None,
        },
    decreases input.len() - pos, 2nat,
{
    let begin = skip_spaces(input, pos);
    match alternative(input, begin) {
        Ok((f, end)) => {
            let after = skip_spaces(input, end);
            Ok((f, after))
        },
        Err(at) => Err(at),
    }
}

/// Reads the formula that begins at `pos`.
fn alternative(input: &Vec<char>, pos: usize) -> (r: Result<(Formula, usize), usize>)
    requires
        pos <= input.len(),
    ensures
        match r {
            Ok((f, end)) => pos <= end <= input.len() && alternative_at(input@, pos as int)
                == Some((f@, (end - pos) as nat)),
            Err(at) => alternative_at(input@, pos as int) is None,
        },
    decreases input.len() - pos, 1nat,
{
    if pos >= input.len() {
        return Err(pos);
    }
    let c = input[pos];
    if matches_at(input, pos, &vec!['t', 'r', 'u', 'e']) {
        Ok((Formula::True, pos + 4))
    } else if matches_at(input, pos, &vec!['f', 'a', 'l', 's', 'e']) {
        Ok((Formula::False, pos + 5))
    } else if upper(c) {
        Ok((Formula::Var { name: c }, pos + 1))
    } else if c == '(' {
        binary(input, pos)
    } else if c == '<' || c == '[' {
        modal(input, pos)
    } else if matches_at(input, pos, &vec!['m', 'u']) || matches_at(input, pos, &vec!['n', 'u']) {
        binder(input, pos)
    } else if c == '%' {
        comment(input, pos)
    } else {
        Err(pos)
    }
}

/// Reads the conjunction or disjunction in parentheses that begins at
/// `pos`.
fn binary(input: &Vec<char>, pos: usize) -> (r: Result<(Formula, usize), usize>)
    requires
        pos < input.len(),
    ensures
        match r {
            Ok((f, end)) => pos <= end <= input.len() && binary_at(input@, pos as int) == Some(
                (f@, (end - pos) as nat),
            ),
            Err(at) => binary_at(input@, pos as int) is None,
        },
    decreases input.len() - pos, 0nat,
{
    let (f1, k) = match formula(input, pos + 1) {
        Ok(p) => p,
        Err(at) => {
            return Err(at);
        },
    };
    let and = matches_at(input, k, &vec!['&', '&']);
    if !and && !matches_at(input, k, &vec!['|', '|']) {
        return Err(k);
    }
    let (f2, e) = match formula(input, k + 2) {
        Ok(p) => p,
        Err(at) => {
            return Err(at);
        },
    };
    if e >= input.len() || input[e] != ')' {
        return Err(e);
    }
    if and {
        Ok((Formula::And { f1: Box::new(f1), f2: Box::new(f2) }, e + 1))
    } else {
        Ok((Formula::Or { f1: Box::new(f1), f2: Box::new(f2) }, e + 1))
    }
}

/// Reads the formula under a modality that begins at `pos` with `<` or
/// `[`.
fn modal(input: &Vec<char>, pos: usize) -> (r: Result<(Formula, usize), usize>)
    requires
        pos < input.len(),
        input@[pos as int] == '<' || input@[pos as int] == '[',
    ensures
        match r {
            Ok((f, end)) => pos <= end <= input.len() && modal_at(input@, pos as int) == Some(
                (f@, (end - pos) as nat),
            ),
            Err(at) => modal_at(input@, pos as int) is None,
        },
    decreases input.len() - pos, 0nat,
{
    let c = input[pos];
    let close = if c == '<' {
        '>'
    } else {
        ']'
    };
    let e = action_end(input, pos + 1);
    if e == pos + 1 || e >= input.len() || input[e] != close {
        return Err(e);
    }
    let step = string_of(input, pos + 1, e);
    let (f, end) = match formula(input, e + 1) {
        Ok(p) => p,
        Err(at) => {
            return Err(at);
        },
    };
    if c == '<' {
        Ok((Formula::Diamond { step, f: Box::new(f) }, end))
    } else {
        Ok((Formula::Box { step, f: Box::new(f) }, end))
    }
}

/// Reads the fixed-point formula that begins at `pos` with `mu` or `nu`.
fn binder(input: &Vec<char>, pos: usize) -> (r: Result<(Formula, usize), usize>)
    requires
        pos < input.len(),
        has(input@, pos as int, seq!['m', 'u']) || has(input@, pos as int, seq!['n', 'u']),
    ensures
        match r {
            Ok((f, end)) => pos <= end <= input.len() && binder_at(input@, pos as int) == Some(
                (f@, (end - pos) as nat),
            ),
            Err(at) => binder_at(input@, pos as int) is None,
        },
    decreases input.len() - pos, 0nat,
{
    let c = input[pos];
    let v = skip_spaces(input, pos + 2);
    if v == pos + 2 || v >= input.len() || !upper(input[v]) {
        return Err(v);
    }
    let var = input[v];
    let dot = skip_spaces(input, v + 1);
    if dot >= input.len() || input[dot] != '.' {
        return Err(dot);
    }
    let (f, end) = match formula(input, dot + 1) {
        Ok(p) => p,
        Err(at) => {
            return Err(at);
        },
    };
    if c == 'm' {
        Ok((Formula::Mu { var, f: Box::new(f) }, end))
    } else {
        Ok((Formula::Nu { var, f: Box::new(f) }, end))
    }
}

/// Reads the formula behind the comment that begins at `pos`.
fn comment(input: &Vec<char>, pos: usize) -> (r: Result<(Formula, usize), usize>)
    requires
        pos < input.len(),
    ensures
        match r {
            Ok((f, end)) => pos <= end <= input.len() && comment_at(input@, pos as int) == Some(
                (f@, (end - pos) as nat),
            ),
            Err(at) => comment_at(input@, pos as int) is None,
        },
    decreases input.len() - pos, 0nat,
{
    let e = line_end(input, pos + 1);
    if e >= input.len() {
        return Err(e);
    }
    formula(input, e)
}

/// The sentence `m` says that a formula or the end of the formula was
/// expected at the place `at`.
pub open spec fn tells(m: Seq<char>, at: nat) -> bool {
    m == failure("a formula"@, at) || m == failure("the end of the formula"@, at)
}

/// The sentence says that a formula or the end of the formula was
/// expected at some place.
pub open spec fn says_where(m: Seq<char>) -> bool {
    exists|at: nat| tells(m, at)
}

impl Formula {
    /// Reads a formula from its text.
    pub fn parse(s: &str) -> (r: Result<Formula, String>)
        ensures
            match r {
                Ok(f) => formula_of(s@) == Some(f@),
                Err(m) => formula_of(s@) is None && says_where(m@),
            },
    {
        let input = chars_of(s);
        match formula(&input, 0) {
            Ok((f, end)) => {
                if end == input.len() {
                    Ok(f)
                } else {
                    let m = failure_text("the end of the formula", end);
                    assert(tells(m@, end as nat));
                    Err(m)
                }
            },
            Err(at) => {
                let m = failure_text("a formula", at);
                assert(tells(m@, at as nat));
                Err(m)
            },
        }
    }
}

impl std::str::FromStr for Formula {
    type Err = String;

    fn from_str(s: &str) -> (r: Result<Formula, String>)
        ensures
            match r {
                Ok(f) => formula_of(s@) == Some(f@),
                Err(m) => formula_of(s@) is None && says_where(m@),
            },
    {
        Formula::parse(s)
    }
}

} // verus!
