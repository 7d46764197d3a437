//! Numbers as text.
use vstd::prelude::*;

verus! {

/// The digit `d` as a character.
pub open spec fn digit(d: int) -> char {
    (0x30 + d) as char
}

/// Decimal digits of `n`, without leading zeros.
pub open spec fn decimal(n: nat) -> Seq<char>
    decreases n,
{
    if n < 10 {
        seq![digit(n as int)]
    } else {
        decimal(n / 10).push(digit((n % 10) as int))
    }
}

fn push_decimal(text: &mut String, n: u64)
    ensures
        final(text)@ == old(text)@ + decimal(n as nat),
    decreases n,
{
    let ghost before = text@;
    if n >= 10 {
        push_decimal(text, n / 10);
    }
    let d: u8 = (n % 10) as u8;
    text.push((0x30u8 + d) as char);
    proof {
        assert(text@ =~= before + decimal(n as nat));
    }
}

/// `n` in decimal.
pub fn decimal_text(n: u64) -> (text: String)
    ensures
        text@ == decimal(n as nat),
{
    let mut text = String::new();
    push_decimal(&mut text, n);
    proof {
        assert(Seq::<char>::empty() + decimal(n as nat) =~= decimal(n as nat));
    }
    text
}

/// `1` and the singular, else the number and the plural.
pub open spec fn counted_noun(count: nat, singular: Seq<char>, plural: Seq<char>) -> Seq<char> {
    decimal(count).push(' ') + if count == 1 {
        singular
    } else {
        plural
    }
}

/// `1` and the singular, else the number and the plural.
pub fn pluralize(count: usize, singular: &str, plural: &str) -> (text: String)
    ensures
        text@ == counted_noun(count as nat, singular@, plural@),
{
    let mut text = decimal_text(count as u64);
    text.push(' ');
    if count == 1 {
        text.append(singular);
    } else {
        text.append(plural);
    }
    text
}

} // verus!
