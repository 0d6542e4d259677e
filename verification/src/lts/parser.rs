//! The text form of labeled transition systems.
//!
//! ```text
//! system := 'des' SPACES '(' number ',' number ',' number ')' { edge }
//! edge   := '(' number ',"' label '",' number ')'
//! ```
//!
//! The first number of the head is the initial state, which is a state of
//! the system whether an edge names it or not; the other two are not used. A label is any run of characters without `"`. The numbers are
//! decimal and have to fit 32 bits. White space may stand before every
//! edge and at the end, and nowhere else but behind `des`, where it must.

use crate::error::MyuError;
use crate::lts::Lts;
use crate::lts::LtsView;
use crate::lts::State;
use crate::text::chars_of;
use crate::text::failure;
use crate::text::failure_text;
use crate::text::has;
use crate::text::number;
use crate::text::read_number;
use crate::text::skip_spaces;
use crate::text::spaces;
use crate::text::string_of;
use vstd::prelude::*;

verus! {

/// The number of characters from `i` on up to the next `"`.
pub open spec fn label_len(s: Seq<char>, i: int) -> nat
    decreases s.len() - i,
{
    if 0 <= i < s.len() && s[i] != '"' {
        1 + label_len(s, i + 1)
    } else {
        0
    }
}

/// The initial state that the head of `s` gives, and the length of the
/// head.
pub open spec fn head_of(s: Seq<char>) -> Option<(State, nat)> {
    let a = spaces(s, 3) as int;
    if has(s, 0, seq!['d', 'e', 's']) && a > 0 && 3 + a < s.len() && s[3 + a] == '(' {
        match number(s, 4 + a) {
            Some((init, n1)) => {
                let c1 = 4 + a + n1;
                if c1 < s.len() && s[c1] == ',' {
                    match number(s, c1 + 1) {
                        Some((_, n2)) => {
                            let c2 = c1 + 1 + n2;
                            if c2 < s.len() && s[c2] == ',' {
                                match number(s, c2 + 1) {
                                    Some((_, n3)) => {
                                        let c3 = c2 + 1 + n3;
                                        if c3 < s.len() && s[c3] == ')' {
                                            Some((init, (c3 + 1) as nat))
                                        } else {
                                            None
                                        }
                                    },
                                    None => None,
                                }
                            } else {
                                None
                            }
                        },
                        None => None,
                    }
                } else {
                    None
                }
            },
            None => None,
        }
    } else {
        None
    }
}

/// The edge that begins at `i`: its source, label and target, and its
/// length.
pub open spec fn edge_at(s: Seq<char>, i: int) -> Option<((State, Seq<char>, State), nat)> {
    if 0 <= i < s.len() && s[i] == '(' {
        match number(s, i + 1) {
            Some((source, n1)) => {
                let l = i + 3 + n1;
                let m = label_len(s, l);
                if has(s, i + 1 + n1, seq![',', '"']) && has(s, l + m, seq!['"', ',']) {
                    match number(s, l + m + 2) {
                        Some((target, n2)) => {
                            let c = l + m + 2 + n2;
                            if c < s.len() && s[c] == ')' {
                                Some(((source, s.subrange(l, l + m), target), n1 + m + n2 + 6))
                            } else {
                                None
                            }
                        },
                        None => None,
                    }
                } else {
                    None
                }
            },
            None => None,
        }
    } else {
        None
    }
}

/// The system `l` with one more transition.
pub open spec fn with_edge(l: LtsView, source: State, label: Seq<char>, target: State) -> LtsView {
    LtsView {
        init: l.init,
        states: l.states.insert(source).insert(target),
        trans: l.trans.insert((source, label), l.targets(source, label).push(target)),
    }
}

/// The system `l` with the transitions that the edges of `s` from `i` on
/// give, if nothing but edges and white space stands there.
pub open spec fn edges_at(s: Seq<char>, i: int, l: LtsView) -> Option<LtsView>
    decreases s.len() - i,
{
    let b = spaces(s, i);
    if i < 0 || i + b > s.len() {
        None
    } else if i + b == s.len() {
        Some(l)
    } else {
        match edge_at(s, i + b) {
            Some(((source, label, target), n)) => if n > 0 && i + b + n <= s.len() {
                edges_at(s, i + b + n, with_edge(l, source, label, target))
            } else {
                None
            },
            None => None,
        }
    }
}

/// The system that `s` writes, if it writes one: its states are the
/// initial state and the sources and targets of the edges.
pub open spec fn lts_of(s: Seq<char>) -> Option<LtsView> {
    match head_of(s) {
        Some((init, n)) => edges_at(
            s,
            n as int,
            LtsView { init, states: Set::empty().insert(init), trans: Map::empty() },
        ),
        None => None,
    }
}

/// Whether the two characters `a`, `b` stand in `input` at `pos`.
fn pair_at(input: &Vec<char>, pos: usize, a: char, b: char) -> (r: bool)
    requires
        pos <= input.len(),
    ensures
        r == has(input@, pos as int, seq![a, b]),
{
    if input.len() - pos >= 2 && input[pos] == a && input[pos + 1] == b {
        assert(input@.subrange(pos as int, pos + 2) =~= seq![a, b]);
        true
    } else {
        proof {
            if input.len() - pos >= 2 {
                let part = input@.subrange(pos as int, pos + 2);
                assert(part[0] == input@[pos as int]);
                assert(part[1] == input@[pos + 1]);
            }
        }
        false
    }
}

/// Reads the head, and gives the initial state and the place behind the
/// head, or the place where the head went wrong.
fn read_head(input: &Vec<char>) -> (r: Result<(State, usize), usize>)
    ensures
        match r {
            Ok((init, end)) => end <= input.len() && head_of(input@) == Some((init, end as nat)),
            Err(at) => head_of(input@) is None,
        },
{
    let ghost s = input@;
    if !(input.len() >= 3 && input[0] == 'd' && input[1] == 'e' && input[2] == 's') {
        proof {
            if input.len() >= 3 {
                let part = s.subrange(0, 3);
                assert(part[0] == s[0] && part[1] == s[1] && part[2] == s[2]);
            }
        }
        return Err(0);
    }
    assert(s.subrange(0, 3) =~= seq!['d', 'e', 's']);
    let open = skip_spaces(input, 3);
    if open == 3 || open >= input.len() || input[open] != '(' {
        return Err(open);
    }
    let (init, c1) = match read_number(input, open + 1) {
        Some(p) => p,
        None => {
            return Err(open + 1);
        },
    };
    if c1 >= input.len() || input[c1] != ',' {
        return Err(c1);
    }
    let (_, c2) = match read_number(input, c1 + 1) {
        Some(p) => p,
        None => {
            return Err(c1 + 1);
        },
    };
    if c2 >= input.len() || input[c2] != ',' {
        return Err(c2);
    }
    let (_, c3) = match read_number(input, c2 + 1) {
        Some(p) => p,
        None => {
            return Err(c2 + 1);
        },
    };
    if c3 >= input.len() || input[c3] != ')' {
        return Err(c3);
    }
    Ok((init, c3 + 1))
}

/// The place of the next `"` from `pos` on, or the end.
fn label_end(input: &Vec<char>, pos: usize) -> (end: usize)
    requires
        pos <= input.len(),
    ensures
        end == pos + label_len(input@, pos as int),
        end <= input.len(),
{
    let mut i: usize = pos;
    while i < input.len() && input[i] != '"'
        invariant
            pos <= i <= input.len(),
            i + label_len(input@, i as int) == pos + label_len(input@, pos as int),
        decreases input.len() - i,
    {
        i = i + 1;
    }
    i
}

/// Reads the edge at `pos`, and gives its source, label and target and
/// the place behind it, or the place where the edge went wrong.
fn read_edge(input: &Vec<char>, pos: usize) -> (r: Result<(State, String, State, usize), usize>)
    requires
        pos <= input.len(),
    ensures
        match r {
            Ok((source, label, target, end)) => pos < end <= input.len() && edge_at(
                input@,
                pos as int,
            ) == Some(((source, label@, target), (end - pos) as nat)),
            Err(at) => edge_at(input@, pos as int) is None,
        },
{
    if pos >= input.len() || input[pos] != '(' {
        return Err(pos);
    }
    let (source, c1) = match read_number(input, pos + 1) {
        Some(p) => p,
        None => {
            return Err(pos + 1);
        },
    };
    if !pair_at(input, c1, ',', '"') {
        return Err(c1);
    }
    let close = label_end(input, c1 + 2);
    if !pair_at(input, close, '"', ',') {
        return Err(close);
    }
    let label = string_of(input, c1 + 2, close);
    let (target, c2) = match read_number(input, close + 2) {
        Some(p) => p,
        None => {
            return Err(close + 2);
        },
    };
    if c2 >= input.len() || input[c2] != ')' {
        return Err(c2);
    }
    Ok((source, label, target, c2 + 1))
}

/// The sentence `m` says that the head of a system or an edge was
/// expected at the place `at`.
pub open spec fn tells(m: Seq<char>, at: nat) -> bool {
    m == failure("the head of a system"@, at) || m == failure("an edge"@, at)
}

/// The error is that a text is no system, and its sentence says that the
/// head of a system or an edge was expected at some place.
pub open spec fn says_where(e: MyuError) -> bool {
    e is LtsParseError && exists|at: nat| tells(e->LtsParseError_0@, at)
}

impl Lts {
    /// Reads a system from its text.
    pub fn parse(s: &str) -> (r: Result<Lts, MyuError>)
        ensures
            match r {
                Ok(l) => l.wf() && lts_of(s@) == Some(l@) && l@.states.contains(l@.init),
                Err(e) => lts_of(s@) is None && says_where(e),
            },
    {
        let input = chars_of(s);
        let (init, start) = match read_head(&input) {
            Ok(p) => p,
            Err(at) => {
                let m = failure_text("the head of a system", at);
                let e = MyuError::LtsParseError(m);
                assert(tells(e->LtsParseError_0@, at as nat));
                return Err(e);
            },
        };
        let mut lts = Lts::new(init);
        lts.add_state(init);
        let mut pos: usize = start;
        assert(lts@ == LtsView {
            init,
            states: Set::<State>::empty().insert(init),
            trans: Map::<(State, Seq<char>), Seq<State>>::empty(),
        });
        loop
            invariant
                input@ == s@,
                pos <= input.len(),
                lts.wf(),
                lts@.states.contains(lts@.init),
                edges_at(input@, pos as int, lts@) == lts_of(s@),
            decreases input.len() - pos,
        {
            let begin = skip_spaces(&input, pos);
            if begin == input.len() {
                return Ok(lts);
            }
            let ghost before = lts@;
            match read_edge(&input, begin) {
                Ok((source, label, target, end)) => {
                    lts.add_edge(source, label.as_str(), target);
                    assert(lts@ == with_edge(before, source, label@, target));
                    pos = end;
                },
                Err(at) => {
                    let m = failure_text("an edge", at);
                    let e = MyuError::LtsParseError(m);
                    assert(tells(e->LtsParseError_0@, at as nat));
                    return Err(e);
                },
            }
        }
    }
}

impl std::str::FromStr for Lts {
    type Err = MyuError;

    fn from_str(s: &str) -> (r: Result<Lts, MyuError>)
        ensures
            match r {
                Ok(l) => l.wf() && lts_of(s@) == Some(l@) && l@.states.contains(l@.init),
                Err(e) => lts_of(s@) is None && says_where(e),
            },
    {
        Lts::parse(s)
    }
}

} // verus!
