//! Binary hashes: strings over `'0'` and `'1'`, where a prefix names a containing cell.

use vstd::prelude::*;
use vstd::string::*;

verus! {

/// Every symbol is `'0'` or `'1'`.
pub open spec fn is_binary(symbols: Seq<char>) -> bool {
    forall|i: int| 0 <= i < symbols.len() ==> symbols[i] == '0' || symbols[i] == '1'
}

/// A binary hash of the given precision has exactly that many binary symbols.
pub open spec fn is_binary_hash(symbols: Seq<char>, precision: nat) -> bool {
    symbols.len() == precision && is_binary(symbols)
}

/// Tells whether `hash` is a binary hash of the given precision.
pub fn check_binary_hash(hash: &str, precision: u8) -> (ok: bool)
    ensures
        ok == is_binary_hash(hash@, precision as nat),
{
    if !hash.is_ascii() {
        return false;
    }
    proof {
        is_ascii_spec_bytes(hash);
    }
    let bytes = hash.as_bytes();
    let n: usize = bytes.len();
    if n != precision as usize {
        return false;
    }
    let mut i: usize = 0;
    while i < n
        invariant
            hash.is_ascii(),
            bytes@ == hash.spec_bytes(),
            n == hash@.len(),
            0 <= i <= n,
            forall|j: int| 0 <= j < i ==> hash@[j] == '0' || hash@[j] == '1',
        decreases n - i,
    {
        let b: u8 = bytes[i];
        proof {
            is_ascii_spec_bytes(hash);
        }
        if b != 48 && b != 49 {
            return false;
        }
        i += 1;
    }
    true
}

} // verus!
