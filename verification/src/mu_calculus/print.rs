//! Writing a formula as text.

use crate::mu_calculus::Formula;
use vstd::prelude::*;
use vstd::string::StringExecFns;

verus! {

impl Formula {
    /// The text of the formula: the constants and variables as they are,
    /// `(f1 && f2)`, `(f1 || f2)`, `<a>f`, `[a]f`, `mu X. f` and `nu X. f`.
    pub open spec fn text(self) -> Seq<char>
        decreases self,
    {
        match self {
            Formula::False => seq!['f', 'a', 'l', 's', 'e'],
            Formula::True => seq!['t', 'r', 'u', 'e'],
            Formula::Var { name } => seq![name],
            Formula::And { f1, f2 } => seq!['('] + f1.text() + seq![' ', '&', '&', ' '] + f2.text()
                + seq![')'],
            Formula::Or { f1, f2 } => seq!['('] + f1.text() + seq![' ', '|', '|', ' '] + f2.text()
                + seq![')'],
            Formula::Diamond { step, f } => seq!['<'] + step@ + seq!['>'] + f.text(),
            Formula::Box { step, f } => seq!['['] + step@ + seq![']'] + f.text(),
            Formula::Mu { var, f } => seq!['m', 'u', ' ', var, '.', ' '] + f.text(),
            Formula::Nu { var, f } => seq!['n', 'u', ' ', var, '.', ' '] + f.text(),
        }
    }

    /// Writes the formula as text.
    pub fn to_string(&self) -> (r: String)
        ensures
            r@ == self.text(),
    {
        let mut out = String::new();
        self.write(&mut out);
        assert(Seq::<char>::empty() + self.text() =~= self.text());
        out
    }

    /// Appends the text of the formula to `out`.
    fn write(&self, out: &mut String)
        ensures
            final(out)@ == old(out)@ + self.text(),
        decreases self,
    {
        let ghost before = out@;
        match self {
            Formula::False => {
                proof {
                    reveal_strlit("false");
                }
                out.append("false");
                assert(out@ =~= before + self.text());
            },
            Formula::True => {
                proof {
                    reveal_strlit("true");
                }
                out.append("true");
                assert(out@ =~= before + self.text());
            },
            Formula::Var { name } => {
                out.push(*name);
                assert(out@ =~= before + self.text());
            },
            Formula::And { f1, f2 } => {
                proof {
                    reveal_strlit(" && ");
                }
                out.push('(');
                f1.write(out);
                out.append(" && ");
                f2.write(out);
                out.push(')');
                assert(out@ =~= before + self.text());
            },
            Formula::Or { f1, f2 } => {
                proof {
                    reveal_strlit(" || ");
                }
                out.push('(');
                f1.write(out);
                out.append(" || ");
                f2.write(out);
                out.push(')');
                assert(out@ =~= before + self.text());
            },
            Formula::Diamond { step, f } => {
                out.push('<');
                out.append(step.as_str());
                out.push('>');
                f.write(out);
                assert(out@ =~= before + self.text());
            },
            Formula::Box { step, f } => {
                out.push('[');
                out.append(step.as_str());
                out.push(']');
                f.write(out);
                assert(out@ =~= before + self.text());
            },
            Formula::Mu { var, f } => {
                proof {
                    reveal_strlit("mu ");
                    reveal_strlit(". ");
                }
                out.append("mu ");
                out.push(*var);
                out.append(". ");
                f.write(out);
                assert(out@ =~= before + self.text());
            },
            Formula::Nu { var, f } => {
                proof {
                    reveal_strlit("nu ");
                    reveal_strlit(". ");
                }
                out.append("nu ");
                out.push(*var);
                out.append(". ");
                f.write(out);
                assert(out@ =~= before + self.text());
            },
        }
    }
}

} // verus!
