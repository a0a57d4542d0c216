//! Building the human-readable reports and error messages: decimal
//! rendering of integers and string assembly with exact contracts.

use vstd::prelude::*;

verus! {

/// The character of a decimal digit `d` (`0 <= d < 10`).
pub open spec fn digit_char(d: nat) -> char {
    (48 + d) as char
}

/// The decimal rendering of `n`, most significant digit first, without
/// leading zeros (and `"0"` for zero).
pub open spec fn decimal(n: nat) -> Seq<char>
    decreases n,
{
    if n < 10 {
        seq![digit_char(n)]
    } else {
        decimal(n / 10).push(digit_char(n % 10))
    }
}

/// Appends one character to a `String` (std's `String::push`).
#[verifier::external_body]
fn push_char(s: &mut String, c: char)
    ensures
        final(s)@ == old(s)@.push(c),
{
    s.push(c);
}

/// Appends the decimal rendering of `n` to `s`.
pub fn push_decimal(s: &mut String, n: u64)
    ensures
        final(s)@ == old(s)@ + decimal(n as nat),
    decreases n,
{
    if n >= 10 {
        push_decimal(s, n / 10);
    }
    let d: u8 = (n % 10) as u8;
    let c: char = (48u8 + d) as char;
    push_char(s, c);
    proof {
        assert(decimal(n as nat) == (if n >= 10 { decimal((n / 10) as nat) } else { Seq::<char>::empty() }).push(digit_char((n % 10) as nat)));
    }
}

/// Appends a string slice to `s`.
pub fn push_str(s: &mut String, t: &str)
    ensures
        final(s)@ == old(s)@ + t@,
{
    s.append(t);
}

/// A fresh `String` holding `t`.
pub fn text_of(t: &str) -> (res: String)
    ensures
        res@ == t@,
{
    String::from_str(t)
}

/// `a`, then the decimal rendering of `x`, then `b`.
pub open spec fn fill1(a: Seq<char>, x: nat, b: Seq<char>) -> Seq<char> {
    a + decimal(x) + b
}

/// `a x b y c` with `x` and `y` rendered in decimal.
pub open spec fn fill2(a: Seq<char>, x: nat, b: Seq<char>, y: nat, c: Seq<char>) -> Seq<char> {
    fill1(a, x, b) + decimal(y) + c
}

/// `a x b y c z d` with `x`, `y` and `z` rendered in decimal.
pub open spec fn fill3(
    a: Seq<char>,
    x: nat,
    b: Seq<char>,
    y: nat,
    c: Seq<char>,
    z: nat,
    d: Seq<char>,
) -> Seq<char> {
    fill2(a, x, b, y, c) + decimal(z) + d
}

/// The message `a x b`.
pub fn message1(a: &str, x: u64, b: &str) -> (res: String)
    ensures
        res@ == fill1(a@, x as nat, b@),
{
    let mut s = text_of(a);
    push_decimal(&mut s, x);
    push_str(&mut s, b);
    s
}

/// The message `a x b y c`.
pub fn message2(a: &str, x: u64, b: &str, y: u64, c: &str) -> (res: String)
    ensures
        res@ == fill2(a@, x as nat, b@, y as nat, c@),
{
    let mut s = message1(a, x, b);
    push_decimal(&mut s, y);
    push_str(&mut s, c);
    s
}

/// The message `a x b y c z d`.
pub fn message3(a: &str, x: u64, b: &str, y: u64, c: &str, z: u64, d: &str) -> (res: String)
    ensures
        res@ == fill3(a@, x as nat, b@, y as nat, c@, z as nat, d@),
{
    let mut s = message2(a, x, b, y, c);
    push_decimal(&mut s, z);
    push_str(&mut s, d);
    s
}

/// The lines in order, with a newline between each two.
pub open spec fn join_lines(lines: Seq<Seq<char>>) -> Seq<char>
    decreases lines.len(),
{
    if lines.len() == 0 {
        Seq::empty()
    } else if lines.len() == 1 {
        lines[0]
    } else {
        join_lines(lines.drop_last()) + seq!['\n'] + lines.last()
    }
}

/// A text without a newline.
pub open spec fn is_line(s: Seq<char>) -> bool {
    forall|i: int| 0 <= i < s.len() ==> s[i] != '\n'
}

/// Adding a line after at least one other adds a newline and the line.
pub proof fn lemma_join_push(lines: Seq<Seq<char>>, l: Seq<char>)
    requires
        lines.len() >= 1,
    ensures
        join_lines(lines.push(l)) == join_lines(lines) + seq!['\n'] + l,
{
    assert(lines.push(l).drop_last() =~= lines);
}

/// Decimal renderings are made of digits only, so they hold no newline.
pub proof fn lemma_decimal_is_line(n: nat)
    ensures
        is_line(decimal(n)),
    decreases n,
{
    if n >= 10 {
        lemma_decimal_is_line(n / 10);
    }
}

/// Two texts without a newline make one.
pub proof fn lemma_concat_is_line(a: Seq<char>, b: Seq<char>)
    requires
        is_line(a),
        is_line(b),
    ensures
        is_line(a + b),
{
    assert forall|i: int| 0 <= i < (a + b).len() implies (a + b)[i] != '\n' by {
        if i >= a.len() {
            assert((a + b)[i] == b[i - a.len()]);
        }
    }
}

/// Appending a piece to a text that ends in line `c` extends that line.
pub proof fn lemma_report_piece(r: Seq<char>, j: Seq<char>, c: Seq<char>, x: Seq<char>)
    requires
        r == j + seq!['\n'] + c,
    ensures
        r + x == j + seq!['\n'] + (c + x),
{
    assert(r + x =~= j + seq!['\n'] + (c + x));
}

/// Appending a piece `a`, newline, `b` to a text that ends in line `c`
/// closes that line with `a` and starts a new line `b`.
pub proof fn lemma_report_break(
    r: Seq<char>,
    j: Seq<char>,
    c: Seq<char>,
    m: Seq<char>,
    a: Seq<char>,
    b: Seq<char>,
)
    requires
        r == j + seq!['\n'] + c,
        m == a + seq!['\n'] + b,
    ensures
        r + m == (j + seq!['\n'] + (c + a)) + seq!['\n'] + b,
{
    assert(r + m =~= (j + seq!['\n'] + (c + a)) + seq!['\n'] + b);
}

/// Appending a newline and `b` to a text that ends in line `c` closes that
/// line and starts a new line `b`.
pub proof fn lemma_report_break_bare(r: Seq<char>, j: Seq<char>, c: Seq<char>, m: Seq<char>, b: Seq<char>)
    requires
        r == j + seq!['\n'] + c,
        m == seq!['\n'] + b,
    ensures
        r + m == (j + seq!['\n'] + c) + seq!['\n'] + b,
{
    assert(r + m =~= (j + seq!['\n'] + c) + seq!['\n'] + b);
}

} // verus!
