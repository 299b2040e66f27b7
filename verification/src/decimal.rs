//! Decimal numerals, for the positions that a diagnostic names.

use vstd::prelude::*;

verus! {

/// The ten digits, each at the index that is its value.
pub open spec fn digits() -> Seq<char> {
    "0123456789"@
}

/// The decimal numeral of `n`: most significant digit first, no leading zero
/// except for zero itself.
pub open spec fn decimal(n: nat) -> Seq<char>
    decreases n,
{
    if n < 10 {
        seq![digits()[n as int]]
    } else {
        decimal(n / 10).push(digits()[(n % 10) as int])
    }
}

/// The decimal numeral of `n`.
pub fn to_decimal(n: usize) -> (numeral: String)
    ensures
        numeral@ == decimal(n as nat),
    decreases n,
{
    proof {
        reveal_strlit("0123456789");
    }
    let mut numeral = if n < 10 {
        String::new()
    } else {
        to_decimal(n / 10)
    };
    numeral.push("0123456789".get_char(n % 10));
    numeral
}

} // verus!
