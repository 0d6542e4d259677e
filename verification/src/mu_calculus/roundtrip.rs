//! The text that is written of a formula is read back as the formula.

use crate::mu_calculus::Formula;
use crate::mu_calculus::parser::action;
use crate::mu_calculus::parser::action_tail;
use crate::mu_calculus::parser::alternative_at;
use crate::mu_calculus::parser::binary_at;
use crate::mu_calculus::parser::binder_at;
use crate::mu_calculus::parser::formula_at;
use crate::mu_calculus::parser::formula_of;
use crate::mu_calculus::parser::is_action_char;
use crate::mu_calculus::parser::is_upper;
use crate::mu_calculus::parser::modal_at;
use crate::text::has;
use crate::text::is_space;
use crate::text::spaces;
use vstd::prelude::*;

verus! {

/// `name` is an action name: a letter from `a` to `z`, and then such
/// letters, digits and `_`.
pub open spec fn is_action(name: Seq<char>) -> bool {
    name.len() > 0 && action(name, 0) == name.len()
}

impl Formula {
    /// The formula can be written so that it is read back: its variables
    /// are letters from `A` to `Z`, and its labels are action names.
    pub open spec fn writable(self) -> bool
        decreases self,
    {
        match self {
            Formula::True | Formula::False => true,
            Formula::Var { name } => is_upper(name),
            Formula::And { f1, f2 } | Formula::Or { f1, f2 } => f1.writable() && f2.writable(),
            Formula::Diamond { step, f } | Formula::Box { step, f } => is_action(step@)
                && f.writable(),
            Formula::Mu { var, f } | Formula::Nu { var, f } => is_upper(var) && f.writable(),
        }
    }

    /// The text of the formula ends with the text of a formula of its own,
    /// behind which white space would be read with it.
    pub open spec fn ends_open(self) -> bool {
        self is Diamond || self is Box || self is Mu || self is Nu
    }

    /// The text of a formula begins with a character that is no white
    /// space.
    pub proof fn lemma_text_begins(self)
        requires
            self.writable(),
        ensures
            self.text().len() > 0,
            !is_space(self.text()[0]),
    {
        match self {
            Formula::Diamond { step, f } => {
                assert(self.text()[0] == '<');
            },
            Formula::Box { step, f } => {
                assert(self.text()[0] == '[');
            },
            Formula::And { f1, f2 } | Formula::Or { f1, f2 } => {
                assert(self.text()[0] == '(');
            },
            Formula::Mu { var, f } => {
                assert(self.text()[0] == 'm');
            },
            Formula::Nu { var, f } => {
                assert(self.text()[0] == 'n');
            },
            _ => {},
        }
    }
}

/// Behind the white space at a place stands no white space.
pub proof fn lemma_spaces_end(s: Seq<char>, i: int)
    requires
        0 <= i,
    ensures
        spaces(s, i + spaces(s, i)) == 0,
        i + spaces(s, i) <= s.len() || spaces(s, i) == 0,
    decreases s.len() - i,
{
    if i < s.len() && is_space(s[i]) {
        lemma_spaces_end(s, i + 1);
    }
}

/// Where `whole` stands in `s` at `i`, the character of `whole` at `off`
/// stands in `s` at `i + off`.
pub proof fn lemma_has_char(s: Seq<char>, i: int, whole: Seq<char>, off: int)
    requires
        has(s, i, whole),
        0 <= off < whole.len(),
    ensures
        i + off < s.len(),
        s[i + off] == whole[off],
{
    assert(s.subrange(i, i + whole.len())[off] == s[i + off]);
}

/// Where `whole` stands in `s` at `i`, the part of `whole` from `off` on
/// stands in `s` at `i + off`.
pub proof fn lemma_has_part(s: Seq<char>, i: int, whole: Seq<char>, off: int, part: Seq<char>)
    requires
        has(s, i, whole),
        0 <= off,
        off + part.len() <= whole.len(),
        whole.subrange(off, off + part.len()) == part,
    ensures
        has(s, i + off, part),
{
    assert forall|j: int| 0 <= j < part.len() implies s.subrange(i + off, i + off + part.len())[j]
        == part[j] by {
        lemma_has_char(s, i, whole, off + j);
        assert(whole.subrange(off, off + part.len())[j] == whole[off + j]);
    }
    assert(s.subrange(i + off, i + off + part.len()) =~= part);
}

/// An action name that stands in a text before a character that cannot
/// be part of it is the longest action name there.
proof fn lemma_action_tail(s: Seq<char>, i: int, name: Seq<char>, j: int)
    requires
        has(s, i, name),
        0 <= j <= name.len(),
        action_tail(name, j) == name.len() - j,
        i + name.len() < s.len(),
        !is_action_char(s[i + name.len()]),
    ensures
        action_tail(s, i + j) == name.len() - j,
    decreases name.len() - j,
{
    if j < name.len() {
        lemma_has_char(s, i, name, j);
        lemma_action_tail(s, i, name, j + 1);
    }
}

/// A formula that stands in a text is read there, with the white space
/// behind it if its text ends with the text of a formula of its own.
pub proof fn lemma_alternative(f: Formula, s: Seq<char>, i: int)
    requires
        f.writable(),
        has(s, i, f.text()),
    ensures
        alternative_at(s, i) == Some(
            (
                f@,
                (f.text().len() + if f.ends_open() {
                    spaces(s, i + f.text().len())
                } else {
                    0
                }) as nat,
            ),
        ),
    decreases f, 1nat,
{
    let t = f.text();
    f.lemma_text_begins();
    lemma_has_char(s, i, t, 0);
    if s[i] != 't' {
        if has(s, i, seq!['t', 'r', 'u', 'e']) {
            lemma_has_char(s, i, seq!['t', 'r', 'u', 'e'], 0);
        }
    }
    if s[i] != 'f' {
        if has(s, i, seq!['f', 'a', 'l', 's', 'e']) {
            lemma_has_char(s, i, seq!['f', 'a', 'l', 's', 'e'], 0);
        }
    }
    match f {
        Formula::True => {},
        Formula::False => {},
        Formula::Var { name } => {},
        Formula::And { f1, f2 } | Formula::Or { f1, f2 } => {
            lemma_binary(f, *f1, *f2, s, i);
        },
        Formula::Diamond { step, f: g } | Formula::Box { step, f: g } => {
            lemma_modal(f, step@, *g, s, i);
        },
        Formula::Mu { var, f: g } | Formula::Nu { var, f: g } => {
            lemma_binder(f, var, *g, s, i);
        },
    }
}

/// A formula that stands in a text behind white space is read from the
/// white space on, with the white space behind it.
pub proof fn lemma_formula(f: Formula, s: Seq<char>, i: int)
    requires
        f.writable(),
        0 <= i,
        has(s, i + spaces(s, i), f.text()),
    ensures
        formula_at(s, i) == Some(
            (f@, (spaces(s, i) + f.text().len() + spaces(s, i + spaces(s, i) + f.text().len())) as nat),
        ),
    decreases f, 2nat,
{
    let a = spaces(s, i);
    let n = f.text().len();
    lemma_alternative(f, s, i + a);
    if f.ends_open() {
        lemma_spaces_end(s, i + a + n);
    }
}

/// No white space stands at a character that is none.
proof fn lemma_no_blank(s: Seq<char>, j: int)
    requires
        0 <= j < s.len(),
        !is_space(s[j]),
    ensures
        spaces(s, j) == 0,
{
}

/// One blank stands before a character that is no white space.
proof fn lemma_one_blank(s: Seq<char>, j: int)
    requires
        0 <= j,
        j + 1 < s.len(),
        s[j] == ' ',
        !is_space(s[j + 1]),
    ensures
        spaces(s, j) == 1,
{
    lemma_no_blank(s, j + 1);
}

/// How the text of a formula of two parts is laid out.
proof fn lemma_binary_text(f: Formula, f1: Formula, f2: Formula)
    requires
        f == (Formula::And { f1: Box::new(f1), f2: Box::new(f2) }) || f == (Formula::Or {
            f1: Box::new(f1),
            f2: Box::new(f2),
        }),
    ensures
        ({
            let t = f.text();
            let n1 = f1.text().len() as int;
            let n2 = f2.text().len() as int;
            &&& t.len() == n1 + n2 + 6
            &&& t[0] == '('
            &&& t.subrange(1, 1 + n1) == f1.text()
            &&& t[1 + n1] == ' '
            &&& t[2 + n1] == if f is And {
                '&'
            } else {
                '|'
            }
            &&& t[3 + n1] == t[2 + n1]
            &&& t[4 + n1] == ' '
            &&& t.subrange(5 + n1, 5 + n1 + n2) == f2.text()
            &&& t[5 + n1 + n2] == ')'
        }),
{
    let t = f.text();
    let t1 = f1.text();
    let t2 = f2.text();
    let n1 = t1.len() as int;
    let n2 = t2.len() as int;
    let op = if f is And {
        seq![' ', '&', '&', ' ']
    } else {
        seq![' ', '|', '|', ' ']
    };
    assert(t =~= seq!['('] + t1 + op + t2 + seq![')']);
    assert(t.subrange(1, 1 + n1) =~= t1);
    assert(t.subrange(5 + n1, 5 + n1 + n2) =~= t2);
    assert(t[1 + n1] == op[0]);
    assert(t[2 + n1] == op[1]);
    assert(t[3 + n1] == op[2]);
    assert(t[4 + n1] == op[3]);
}

/// Two equal characters stand where the word of the two stands.
proof fn lemma_has_two(s: Seq<char>, k: int, c: char)
    requires
        0 <= k,
        k + 2 <= s.len(),
        s[k] == c,
        s[k + 1] == c,
    ensures
        has(s, k, seq![c, c]),
{
    assert(s.subrange(k, k + 2) =~= seq![c, c]);
}

/// The part of `lemma_alternative` that concerns a formula of two parts.
#[verifier::rlimit(50)]
proof fn lemma_binary(f: Formula, f1: Formula, f2: Formula, s: Seq<char>, i: int)
    requires
        f == (Formula::And { f1: Box::new(f1), f2: Box::new(f2) }) || f == (Formula::Or {
            f1: Box::new(f1),
            f2: Box::new(f2),
        }),
        f.writable(),
        has(s, i, f.text()),
    ensures
        binary_at(s, i) == Some((f@, f.text().len())),
        s[i] == '(',
    decreases f, 0nat,
{
    let t = f.text();
    let t1 = f1.text();
    let t2 = f2.text();
    let n1 = t1.len() as int;
    let n2 = t2.len() as int;
    lemma_binary_text(f, f1, f2);
    f1.lemma_text_begins();
    f2.lemma_text_begins();
    lemma_has_char(s, i, t, 0);
    // The first part, and the blank behind it.
    lemma_has_part(s, i, t, 1, t1);
    lemma_has_char(s, i + 1, t1, 0);
    lemma_no_blank(s, i + 1);
    lemma_formula(f1, s, i + 1);
    lemma_has_char(s, i, t, 1 + n1);
    lemma_has_char(s, i, t, 2 + n1);
    lemma_has_char(s, i, t, 3 + n1);
    lemma_has_char(s, i, t, 4 + n1);
    lemma_one_blank(s, i + 1 + n1);
    // The operator.
    let k = i + 2 + n1;
    lemma_has_two(s, k, s[k]);
    if !(f is And) {
        if has(s, k, seq!['&', '&']) {
            lemma_has_char(s, k, seq!['&', '&'], 0);
        }
    }
    // The second part, behind one blank.
    lemma_has_part(s, i, t, 5 + n1, t2);
    lemma_has_char(s, k + 3, t2, 0);
    lemma_one_blank(s, k + 2);
    lemma_formula(f2, s, k + 2);
    lemma_has_char(s, i, t, 5 + n1 + n2);
    lemma_no_blank(s, k + 3 + n2);
}

/// The part of `lemma_alternative` that concerns a formula under a
/// modality.
proof fn lemma_modal(f: Formula, step: Seq<char>, g: Formula, s: Seq<char>, i: int)
    requires
        (f matches Formula::Diamond { step: label, f: body } && label@ == step && *body == g) || (
        f matches Formula::Box { step: label, f: body } && label@ == step && *body == g),
        f.writable(),
        has(s, i, f.text()),
    ensures
        modal_at(s, i) == Some((f@, (f.text().len() + spaces(s, i + f.text().len())) as nat)),
        s[i] == '<' || s[i] == '[',
    decreases f, 0nat,
{
    let t = f.text();
    let tg = g.text();
    let n = step.len() as int;
    let head = if f is Diamond {
        seq!['<']
    } else {
        seq!['[']
    };
    let tail = if f is Diamond {
        seq!['>']
    } else {
        seq![']']
    };
    assert(t =~= head + step + tail + tg);
    g.lemma_text_begins();
    lemma_has_char(s, i, t, 0);
    assert(t.subrange(1, 1 + n) =~= step);
    lemma_has_part(s, i, t, 1, step);
    lemma_has_char(s, i, t, 1 + n);
    lemma_has_char(s, i + 1, step, 0);
    lemma_action_tail(s, i + 1, step, 1);
    assert(action(s, i + 1) == n);
    assert(t.subrange(2 + n, 2 + n + tg.len() as int) =~= tg);
    lemma_has_part(s, i, t, 2 + n, tg);
    lemma_has_char(s, i, t, 2 + n);
    assert(spaces(s, i + 2 + n) == 0);
    lemma_formula(g, s, i + 2 + n);
    assert(s.subrange(i + 1, i + 1 + n) == step);
}

/// The part of `lemma_alternative` that concerns a fixed-point formula.
proof fn lemma_binder(f: Formula, var: char, g: Formula, s: Seq<char>, i: int)
    requires
        f == (Formula::Mu { var, f: Box::new(g) }) || f == (Formula::Nu { var, f: Box::new(g) }),
        f.writable(),
        has(s, i, f.text()),
    ensures
        binder_at(s, i) == Some((f@, (f.text().len() + spaces(s, i + f.text().len())) as nat)),
        has(s, i, seq!['m', 'u']) || has(s, i, seq!['n', 'u']),
        s[i] == 'm' || s[i] == 'n',
    decreases f, 0nat,
{
    let t = f.text();
    let tg = g.text();
    let first = if f is Mu {
        'm'
    } else {
        'n'
    };
    assert(t =~= seq![first, 'u', ' ', var, '.', ' '] + tg);
    g.lemma_text_begins();
    lemma_has_char(s, i, t, 0);
    lemma_has_char(s, i, t, 1);
    lemma_has_char(s, i, t, 2);
    lemma_has_char(s, i, t, 3);
    lemma_has_char(s, i, t, 4);
    lemma_has_char(s, i, t, 5);
    lemma_has_char(s, i, t, 6);
    assert(t.subrange(0, 2) =~= seq![first, 'u']);
    lemma_has_part(s, i, t, 0, seq![first, 'u']);
    assert(spaces(s, i + 3) == 0);
    assert(spaces(s, i + 2) == 1);
    assert(spaces(s, i + 4) == 0);
    assert(spaces(s, i + 6) == 0);
    assert(spaces(s, i + 5) == 1);
    assert(t.subrange(6, 6 + tg.len() as int) =~= tg);
    lemma_has_part(s, i, t, 6, tg);
    lemma_formula(g, s, i + 5);
}

/// What `to_string` writes of a formula whose variables are letters from
/// `A` to `Z` and whose labels are action names, `parse` reads back as
/// the formula.
pub proof fn law_written_is_read(f: Formula)
    requires
        f.writable(),
    ensures
        formula_of(f.text()) == Some(f@),
{
    let s = f.text();
    f.lemma_text_begins();
    assert(spaces(s, 0) == 0);
    assert(s.subrange(0, s.len() as int) =~= s);
    lemma_formula(f, s, 0);
    assert(spaces(s, s.len() as int) == 0);
}

} // verus!
