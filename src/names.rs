//! Decimal text of integers, and the names of the model's layers.
use vstd::prelude::*;
use vstd::string::*;

verus! {

/// The character of a decimal digit `d < 10`.
pub open spec fn digit_char(d: nat) -> char {
    if d == 0 { '0' } else if d == 1 { '1' } else if d == 2 { '2' } else if d == 3 { '3' }
    else if d == 4 { '4' } else if d == 5 { '5' } else if d == 6 { '6' } else if d == 7 { '7' }
    else if d == 8 { '8' } else { '9' }
}

/// The decimal text of `n`, without sign or leading zeros.
pub open spec fn decimal(n: nat) -> Seq<char>
    decreases n,
{
    if n < 10 {
        seq![digit_char(n)]
    } else {
        decimal(n / 10).push(digit_char(n % 10))
    }
}

/// Relies on std's `ToString` for `u64`, which writes the integer in
/// decimal, without sign or leading zeros.
#[verifier::external_body]
pub(crate) fn decimal_string(n: u64) -> (r: String)
    ensures
        r@ == decimal(n as nat),
{
    n.to_string()
}

/// The name of layer `i`: `model.layers.<i>`.
pub open spec fn layer_name_spec(i: nat) -> Seq<char> {
    "model.layers."@ + decimal(i)
}

/// The name of layer `i`.
pub fn layer_name(i: usize) -> (r: String)
    ensures
        r@ == layer_name_spec(i as nat),
{
    let mut s = String::from_str("model.layers.");
    let d = decimal_string(i as u64);
    s.append(d.as_str());
    proof {
        reveal_strlit("model.layers.");
    }
    s
}

/// The placeholder text of a token id that has no text: `<token <id>>`.
pub open spec fn token_placeholder(id: nat) -> Seq<char> {
    "<token "@ + decimal(id) + ">"@
}

/// The placeholder text of a token id that has no text.
pub fn placeholder(id: u32) -> (r: String)
    ensures
        r@ == token_placeholder(id as nat),
{
    let mut s = String::from_str("<token ");
    let d = decimal_string(id as u64);
    s.append(d.as_str());
    s.append(">");
    proof {
        reveal_strlit("<token ");
        reveal_strlit(">");
    }
    s
}

} // verus!
