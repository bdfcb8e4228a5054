//! The identity map: the one line that makes a user or group id inside the
//! new user namespace the same id outside it.

use vstd::prelude::*;

verus! {

/// The byte `0`.
pub const ZERO: u8 = 48;

/// The byte ` `.
pub const SPACE: u8 = 32;

/// The decimal digits of `n`, without leading zeros.
pub open spec fn decimal(n: nat) -> Seq<u8>
    decreases n,
{
    if n < 10 {
        seq![(ZERO + n) as u8]
    } else {
        decimal(n / 10).push((ZERO + n % 10) as u8)
    }
}

/// The line `<id> <id> 1`: one id, mapped to itself.
pub open spec fn id_map_text(id: nat) -> Seq<u8> {
    decimal(id) + seq![SPACE] + decimal(id) + seq![SPACE, (ZERO + 1) as u8]
}

/// The decimal digits of `n`.
pub fn decimal_digits(n: u32) -> (digits: Vec<u8>)
    ensures
        digits@ == decimal(n as nat),
    decreases n,
{
    if n < 10 {
        let digits = vec![ZERO + n as u8];
        assert(digits@ =~= decimal(n as nat));
        digits
    } else {
        let mut digits = decimal_digits(n / 10);
        digits.push(ZERO + (n % 10) as u8);
        digits
    }
}

/// The content of the map file for `id`.
pub fn id_map_line(id: u32) -> (line: Vec<u8>)
    ensures
        line@ == id_map_text(id as nat),
{
    let digits = decimal_digits(id);
    let mut line = decimal_digits(id);
    line.push(SPACE);
    line.extend_from_slice(digits.as_slice());
    line.push(SPACE);
    line.push(ZERO + 1);
    assert(line@ =~= id_map_text(id as nat));
    line
}

} // verus!
