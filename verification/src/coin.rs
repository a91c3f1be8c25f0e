//! The coin type: one amount of a single denomination.

use vstd::prelude::*;
use vstd::string::StringSliceAdditionalSpecFns;

verus! {

/// The mathematical model of one balance entry: the denomination as
/// its UTF-8 byte sequence, and the amount held in it.
#[verifier::ext_equal]
pub ghost struct Entry {
    pub denom: Seq<u8>,
    pub amount: u128,
}

/// One token balance: an amount of a single denomination.
#[derive(Debug)]
pub struct Coin {
    pub denom: String,
    pub amount: u128,
}

impl View for Coin {
    type V = Entry;

    open spec fn view(&self) -> Entry {
        Entry { denom: vstd::utf8::encode_utf8(self.denom@), amount: self.amount }
    }
}

impl Clone for Coin {
    /// Cloning preserves the entry the coin stands for.
    fn clone(&self) -> (r: Coin)
        ensures
            r@ == self@,
    {
        Coin { denom: self.denom.clone(), amount: self.amount }
    }
}

/// Builds the coin holding `amount` units of denomination `denom`.
pub fn coin(amount: u128, denom: &str) -> (c: Coin)
    ensures
        c@ == (Entry { denom: denom.spec_bytes(), amount }),
{
    Coin { denom: denom.to_owned(), amount }
}

} // verus!
