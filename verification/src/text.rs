//! Characters and the pieces that the two text formats share: white
//! space, decimal numbers, the order of the dictionary and the sentences
//! that say where a text went wrong.

use vstd::prelude::*;
use vstd::std_specs::iter::IteratorSpec;
use vstd::string::StringExecFns;

verus! {

/// Appending a character to a string: `String::push` of the standard
/// library puts the character at the end and changes nothing else.
pub assume_specification[ String::push ](s: &mut String, c: char)
    ensures
        final(s)@ == old(s)@.push(c),
;

/// The characters of `s`, in order.
pub fn chars_of(s: &str) -> (v: Vec<char>)
    ensures
        v@ == s@,
{
    broadcast use vstd::string::axiom_spec_iter;

    let ghost all = s@;
    let mut v: Vec<char> = Vec::new();
    for c in it: s.chars()
        invariant
            it.seq() == all,
            v@ == all.take(it.index()),
    {
        v.push(c);
        assert(all.take(it.index() + 1) =~= all.take(it.index()).push(c));
    }
    proof {
        assert(all.take(all.len() as int) =~= all);
    }
    v
}

/// The string of the characters `input[from..to]`.
pub fn string_of(input: &Vec<char>, from: usize, to: usize) -> (s: String)
    requires
        from <= to <= input.len(),
    ensures
        s@ == input@.subrange(from as int, to as int),
{
    let mut s = String::new();
    let mut i: usize = from;
    while i < to
        invariant
            from <= i <= to <= input.len(),
            s@ == input@.subrange(from as int, i as int),
        decreases to - i,
    {
        s.push(input[i]);
        assert(input@.subrange(from as int, i + 1) =~= input@.subrange(from as int, i as int).push(
            input@[i as int],
        ));
        i = i + 1;
    }
    s
}

/// White space: the characters that Unicode gives the property
/// `White_Space`.
pub open spec fn is_space(c: char) -> bool {
    ||| '\u{9}' <= c <= '\u{d}'
    ||| c == ' '
    ||| c == '\u{85}'
    ||| c == '\u{a0}'
    ||| c == '\u{1680}'
    ||| '\u{2000}' <= c <= '\u{200a}'
    ||| c == '\u{2028}'
    ||| c == '\u{2029}'
    ||| c == '\u{202f}'
    ||| c == '\u{205f}'
    ||| c == '\u{3000}'
}

/// A decimal digit.
pub open spec fn is_digit(c: char) -> bool {
    '0' <= c <= '9'
}

/// The number of white-space characters of `s` from `i` on, up to the
/// first character that is none.
pub open spec fn spaces(s: Seq<char>, i: int) -> nat
    decreases s.len() - i,
{
    if 0 <= i < s.len() && is_space(s[i]) {
        1 + spaces(s, i + 1)
    } else {
        0
    }
}

/// The number of decimal digits of `s` from `i` on, up to the first
/// character that is none.
pub open spec fn digits(s: Seq<char>, i: int) -> nat
    decreases s.len() - i,
{
    if 0 <= i < s.len() && is_digit(s[i]) {
        1 + digits(s, i + 1)
    } else {
        0
    }
}

/// The number that the decimal digits `d` write.
pub open spec fn decimal(d: Seq<char>) -> nat
    decreases d.len(),
{
    if d.len() == 0 {
        0
    } else {
        10 * decimal(d.drop_last()) + (d.last() as u32 - '0' as u32) as nat
    }
}

/// The decimal number of 32 bits at `i` and the number of its digits, if
/// a digit stands at `i` and the digits from there on write such a number.
pub open spec fn number(s: Seq<char>, i: int) -> Option<(u32, nat)> {
    let n = digits(s, i);
    if n > 0 && decimal(s.subrange(i, i + n)) <= u32::MAX {
        Some((decimal(s.subrange(i, i + n)) as u32, n))
    } else {
        None
    }
}

/// `word` stands in `s` at `i`.
pub open spec fn has(s: Seq<char>, i: int, word: Seq<char>) -> bool {
    0 <= i && i + word.len() <= s.len() && s.subrange(i, i + word.len()) == word
}

/// Whether `c` is white space.
pub fn space(c: char) -> (b: bool)
    ensures
        b == is_space(c),
{
    ('\u{9}' <= c && c <= '\u{d}') || c == ' ' || c == '\u{85}' || c == '\u{a0}' || c == '\u{1680}'
        || ('\u{2000}' <= c && c <= '\u{200a}') || c == '\u{2028}' || c == '\u{2029}' || c
        == '\u{202f}' || c == '\u{205f}' || c == '\u{3000}'
}

/// The place of the first character from `pos` on that is no white space.
pub fn skip_spaces(input: &Vec<char>, pos: usize) -> (end: usize)
    requires
        pos <= input.len(),
    ensures
        end == pos + spaces(input@, pos as int),
        end <= input.len(),
{
    let mut i: usize = pos;
    while i < input.len() && space(input[i])
        invariant
            pos <= i <= input.len(),
            i + spaces(input@, i as int) == pos + spaces(input@, pos as int),
        decreases input.len() - i,
    {
        i = i + 1;
    }
    i
}

/// The digits are within the text.
pub proof fn lemma_digits_bound(s: Seq<char>, i: int)
    requires
        0 <= i <= s.len(),
    ensures
        i + digits(s, i) <= s.len(),
        forall|k: int| i <= k < i + digits(s, i) ==> is_digit(#[trigger] s[k]),
        i + digits(s, i) < s.len() ==> !is_digit(s[i + digits(s, i)]),
    decreases s.len() - i,
{
    if i < s.len() && is_digit(s[i]) {
        lemma_digits_bound(s, i + 1);
    }
}

/// A number grows with every digit that is written behind it.
pub proof fn lemma_decimal_grows(d: Seq<char>, k: int)
    requires
        0 <= k <= d.len(),
        forall|j: int| 0 <= j < d.len() ==> is_digit(#[trigger] d[j]),
    ensures
        decimal(d.subrange(0, k)) <= decimal(d),
    decreases d.len() - k,
{
    if k == d.len() {
        assert(d.subrange(0, k) =~= d);
    } else {
        lemma_decimal_grows(d, k + 1);
        let longer = d.subrange(0, k + 1);
        assert(longer.drop_last() =~= d.subrange(0, k));
        assert(is_digit(d[k]));
    }
}

/// The decimal number of 32 bits at `pos` and the place behind it.
pub fn read_number(input: &Vec<char>, pos: usize) -> (r: Option<(u32, usize)>)
    requires
        pos <= input.len(),
    ensures
        match r {
            Some((v, end)) => number(input@, pos as int) == Some((v, (end - pos) as nat)) && pos
                < end <= input.len(),
            None => number(input@, pos as int) is None,
        },
{
    let ghost s = input@;
    let ghost n = digits(s, pos as int);
    proof {
        lemma_digits_bound(s, pos as int);
    }
    let mut i: usize = pos;
    let mut value: u32 = 0;
    while i < input.len() && '0' <= input[i] && input[i] <= '9'
        invariant
            s == input@,
            n == digits(s, pos as int),
            pos <= i <= pos + n <= input.len(),
            forall|k: int| pos <= k < pos + n ==> is_digit(#[trigger] s[k]),
            pos + n < s.len() ==> !is_digit(s[pos + n]),
            value == decimal(s.subrange(pos as int, i as int)),
        decreases input.len() - i,
    {
        let digit: u32 = input[i] as u32 - '0' as u32;
        proof {
            assert(i < pos + n);
            let longer = s.subrange(pos as int, i + 1);
            assert(longer.drop_last() =~= s.subrange(pos as int, i as int));
            assert(decimal(longer) == 10 * value + digit);
            let all = s.subrange(pos as int, pos + n);
            assert(all.subrange(0, i + 1 - pos) =~= longer);
            lemma_decimal_grows(all, i + 1 - pos);
        }
        if value > (u32::MAX - digit) / 10 {
            return None;
        }
        value = value * 10 + digit;
        i = i + 1;
    }
    proof {
        assert(i == pos + n);
        assert(s.subrange(pos as int, pos as int) =~= Seq::<char>::empty());
    }
    if i == pos {
        None
    } else {
        Some((value, i))
    }
}

/// The decimal digit for `d`.
pub open spec fn digit(d: nat) -> char {
    (d + '0' as u32) as char
}

/// The decimal digits that write `n`, without leading zeros.
pub open spec fn numeral(n: nat) -> Seq<char>
    decreases n,
{
    if n < 10 {
        seq![digit(n)]
    } else {
        numeral(n / 10).push(digit(n % 10))
    }
}

/// The sentence that `expected` was expected at the place `at` of a text.
pub open spec fn failure(expected: Seq<char>, at: nat) -> Seq<char> {
    "expected "@ + expected + " at offset "@ + numeral(at)
}

/// The decimal digit for `d`.
fn digit_of(d: usize) -> (c: char)
    requires
        d < 10,
    ensures
        c == digit(d as nat),
{
    if d == 0 {
        '0'
    } else if d == 1 {
        '1'
    } else if d == 2 {
        '2'
    } else if d == 3 {
        '3'
    } else if d == 4 {
        '4'
    } else if d == 5 {
        '5'
    } else if d == 6 {
        '6'
    } else if d == 7 {
        '7'
    } else if d == 8 {
        '8'
    } else {
        '9'
    }
}

/// Appends the decimal digits that write `n` to `out`.
fn write_number(out: &mut String, n: usize)
    ensures
        final(out)@ == old(out)@ + numeral(n as nat),
    decreases n,
{
    let ghost before = out@;
    if n < 10 {
        out.push(digit_of(n));
        assert(out@ =~= before + numeral(n as nat));
    } else {
        write_number(out, n / 10);
        out.push(digit_of(n % 10));
        assert(out@ =~= before + numeral(n as nat));
    }
}

/// The sentence that `expected` was expected at the place `at` of a
/// text.
pub fn failure_text(expected: &str, at: usize) -> (r: String)
    ensures
        r@ == failure(expected@, at as nat),
{
    let mut r = String::from_str("expected ");
    r.append(expected);
    r.append(" at offset ");
    write_number(&mut r, at);
    r
}

/// The digits that write a number write that number.
pub proof fn lemma_numeral(n: nat)
    ensures
        decimal(numeral(n)) == n,
        forall|i: int| 0 <= i < numeral(n).len() ==> is_digit(#[trigger] numeral(n)[i]),
    decreases n,
{
    if n < 10 {
        assert(numeral(n).drop_last() =~= Seq::<char>::empty());
        assert(decimal(numeral(n).drop_last()) == 0);
    } else {
        lemma_numeral(n / 10);
        assert(numeral(n).drop_last() =~= numeral(n / 10));
    }
}

/// `a` comes before `b` in the order of the dictionary: at the first
/// place where they differ, `a` has ended or has the smaller character.
pub open spec fn comes_before(a: Seq<char>, b: Seq<char>) -> bool {
    exists|k: int| differ_at(a, b, k)
}

/// `a` and `b` are the same up to `k`, and there `a` has ended and `b`
/// has not, or `a` has the smaller character.
pub open spec fn differ_at(a: Seq<char>, b: Seq<char>, k: int) -> bool {
    &&& 0 <= k <= a.len()
    &&& k < b.len()
    &&& forall|j: int| 0 <= j < k ==> a[j] == b[j]
    &&& k < a.len() ==> a[k] < b[k]
}

/// How one text stands to another in the order of the dictionary.
pub enum Order {
    Before,
    Same,
    After,
}

/// Compares `a` with `b` in the order of the dictionary.
pub fn compare(a: &Vec<char>, b: &Vec<char>) -> (r: Order)
    ensures
        r is Before ==> comes_before(a@, b@),
        r is Same ==> a@ == b@,
        r is After ==> comes_before(b@, a@),
{
    let mut i: usize = 0;
    while i < a.len() && i < b.len()
        invariant
            i <= a.len(),
            i <= b.len(),
            forall|j: int| 0 <= j < i ==> a@[j] == b@[j],
        decreases a.len() - i,
    {
        if a[i] < b[i] {
            assert(differ_at(a@, b@, i as int));
            return Order::Before;
        }
        if b[i] < a[i] {
            assert(differ_at(b@, a@, i as int));
            return Order::After;
        }
        i = i + 1;
    }
    if i < b.len() {
        assert(differ_at(a@, b@, i as int));
        Order::Before
    } else if i < a.len() {
        assert(differ_at(b@, a@, i as int));
        Order::After
    } else {
        assert(a@ =~= b@);
        Order::Same
    }
}

/// No text comes before itself.
pub proof fn lemma_order_irreflexive(a: Seq<char>, b: Seq<char>)
    requires
        comes_before(a, b),
    ensures
        a != b,
{
    let k = choose|k: int| differ_at(a, b, k);
    if a == b {
        assert(k < a.len());
        assert(a[k] < b[k]);
    }
}

/// What comes before a text comes before all that the text comes before.
pub proof fn lemma_order_transitive(a: Seq<char>, b: Seq<char>, c: Seq<char>)
    requires
        comes_before(a, b),
        comes_before(b, c),
    ensures
        comes_before(a, c),
{
    let k1 = choose|k: int| differ_at(a, b, k);
    let k2 = choose|k: int| differ_at(b, c, k);
    let k = if k1 <= k2 {
        k1
    } else {
        k2
    };
    assert forall|j: int| 0 <= j < k implies a[j] == c[j] by {
        assert(a[j] == b[j]);
        assert(b[j] == c[j]);
    }
    if k1 < k2 {
        assert(b[k1] == c[k1]);
    } else if k2 < k1 {
        assert(a[k2] == b[k2]);
    }
    assert(differ_at(a, c, k));
}

} // verus!
