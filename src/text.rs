//! Letters and decimal digits, as character sequences and as text.
use vstd::prelude::*;

verus! {

/// The capital letter at zero-based position `d` of the alphabet.
pub open spec fn letter(d: nat) -> char {
    ((65 + d) as u8) as char
}

/// The decimal digit character for `d`.
pub open spec fn digit(d: nat) -> char {
    ((48 + d) as u8) as char
}

/// The decimal representation of `n`, without leading zeros.
pub open spec fn decimal(n: nat) -> Seq<char>
    decreases n,
{
    if n < 10 {
        seq![digit(n)]
    } else {
        decimal(n / 10).push(digit(n % 10))
    }
}

/// The one-letter text for alphabet position `d`.
pub fn letter_text(d: usize) -> (r: &'static str)
    requires
        d < 26,
    ensures
        r@ == seq![letter(d as nat)],
{
    let alphabet = "ABCDEFGHIJKLMNOPQRSTUVWXYZ";
    proof {
        reveal_strlit("ABCDEFGHIJKLMNOPQRSTUVWXYZ");
    }
    let r = alphabet.substring_ascii(d, d + 1);
    assert(r@ =~= seq![letter(d as nat)]);
    r
}

/// The one-digit text for `d`.
pub fn digit_text(d: usize) -> (r: &'static str)
    requires
        d < 10,
    ensures
        r@ == seq![digit(d as nat)],
{
    let digits = "0123456789";
    proof {
        reveal_strlit("0123456789");
    }
    let r = digits.substring_ascii(d, d + 1);
    assert(r@ =~= seq![digit(d as nat)]);
    r
}

/// Writes `n` in decimal.
pub fn decimal_text(n: usize) -> (r: String)
    ensures
        r@ == decimal(n as nat),
    decreases n,
{
    if n < 10 {
        String::from_str(digit_text(n))
    } else {
        let mut s = decimal_text(n / 10);
        s.append(digit_text(n % 10));
        s
    }
}

} // verus!
