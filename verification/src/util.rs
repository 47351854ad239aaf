//! Naming helpers shared by the printers of terms and types.

use vstd::prelude::*;

verus! {

/// The `d`-th letter counted from `base`, for `d` below 26.
pub open spec fn letter(base: char, d: nat) -> char {
    ((base as u8) + d) as char
}

/// The bijective base-26 numeral of `n`, most significant letter first:
/// `A`, `B`, ..., `Z`, `AA`, `AB`, ... when `base` is `'A'`.
pub open spec fn numeral(base: char, n: nat) -> Seq<char>
    decreases n,
{
    if n < 26 {
        seq![letter(base, n)]
    } else {
        numeral(base, (n / 26 - 1) as nat).push(letter(base, n % 26))
    }
}

/// What a list of strings holds.
pub open spec fn texts(lines: Seq<String>) -> Seq<Seq<char>> {
    Seq::new(lines.len(), |i: int| lines[i]@)
}

/// `String::push`: the character is appended at the end.
#[verifier::external_body]
pub(crate) fn push_char(s: &mut String, c: char)
    ensures
        final(s)@ == old(s)@.push(c),
{
    s.push(c)
}

fn nth_letter(base: u8, d: usize) -> (c: char)
    requires
        base == 65 || base == 97,
        d < 26,
    ensures
        c == letter(base as char, d as nat),
{
    (base + d as u8) as char
}

fn numeral_from(base: u8, n: usize) -> (res: String)
    requires
        base == 65 || base == 97,
    ensures
        res@ == numeral(base as char, n as nat),
    decreases n,
{
    if n < 26 {
        let mut res = String::new();
        push_char(&mut res, nth_letter(base, n));
        res
    } else {
        let mut res = numeral_from(base, n / 26 - 1);
        push_char(&mut res, nth_letter(base, n % 26));
        res
    }
}

/// Names the `n`-th bound variable with lower-case letters.
pub fn variable_name(n: usize) -> (res: String)
    ensures
        res@ == numeral('a', n as nat),
{
    numeral_from(97, n)
}

/// The decimal digit of `d`, for `d` below 10.
pub open spec fn digit(d: nat) -> char {
    (('0' as u8) + d) as char
}

/// The decimal numeral of `n`.
pub open spec fn decimal(n: nat) -> Seq<char>
    decreases n,
{
    if n < 10 {
        seq![digit(n)]
    } else {
        decimal(n / 10).push(digit(n % 10))
    }
}

/// Writes `n` in decimal.
pub fn to_decimal(n: usize) -> (res: String)
    ensures
        res@ == decimal(n as nat),
    decreases n,
{
    if n < 10 {
        let mut res = String::new();
        push_char(&mut res, (48u8 + n as u8) as char);
        res
    } else {
        let mut res = to_decimal(n / 10);
        push_char(&mut res, (48u8 + (n % 10) as u8) as char);
        res
    }
}

/// Names the `n`-th type variable with upper-case letters.
pub fn alphabetize(n: usize) -> (res: String)
    ensures
        res@ == numeral('A', n as nat),
{
    numeral_from(65, n)
}

} // verus!
