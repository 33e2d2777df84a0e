//! The 5-bit symbol: the unit of the alphabet, of the regrouping and of the
//! checksum.

use vstd::prelude::*;
use vstd::arithmetic::power2::{lemma2_to64, pow2};
use crate::bits::first_unfit;
use crate::error::{Bech32Error, Error, ErrorView};

verus! {

/// An integer in `0..=31`. No value of this type holds anything else.
#[derive(Debug, Clone, Copy, PartialEq, Eq)]
pub struct U5 {
    value: u8,
}

impl View for U5 {
    type V = u8;

    /// The number that the symbol stands for. It is a 5-bit number for
    /// every value that a specification can name; by the type's invariant it
    /// is the number that the symbol was made from.
    closed spec fn view(&self) -> u8 {
        self.value % 32
    }
}

impl U5 {
    #[verifier::type_invariant]
    spec fn in_range(self) -> bool {
        self.value <= 31
    }

    /// Every symbol is a 5-bit number.
    pub proof fn lemma_view_range(self)
        ensures
            self@ <= 31,
    {
    }

    /// The symbol for `value`, or `InvalidData` where it needs more than 5 bits.
    pub fn try_from_u8(value: u8) -> (r: Result<U5, Bech32Error>)
        ensures
            value <= 31 ==> (r matches Ok(s) && s@ == value),
            value > 31 ==> r == Err::<U5, Bech32Error>(Bech32Error::InvalidData(value)),
    {
        if value > 31 {
            Err(Bech32Error::InvalidData(value))
        } else {
            Ok(U5 { value })
        }
    }

    /// The number that the symbol stands for.
    pub fn to_u8(self) -> (v: u8)
        ensures
            v == self@,
            v <= 31,
    {
        proof {
            use_type_invariant(&self);
        }
        self.value
    }
}

/// The numbers that a sequence of symbols stands for.
pub open spec fn values(symbols: Seq<U5>) -> Seq<u8> {
    symbols.map_values(|s: U5| s@)
}

/// Whether every item is a 5-bit number.
pub open spec fn all_five_bit(items: Seq<u8>) -> bool {
    forall|i: int| 0 <= i < items.len() ==> #[trigger] items[i] <= 31
}

/// Two sequences of 5-bit numbers, one behind the other, are a sequence of
/// 5-bit numbers.
pub proof fn lemma_concat_five_bit(x: Seq<u8>, y: Seq<u8>)
    requires
        all_five_bit(x),
        all_five_bit(y),
    ensures
        all_five_bit(x + y),
{
    assert forall|i: int| 0 <= i < (x + y).len() implies #[trigger] (x + y)[i] <= 31 by {
        if i >= x.len() {
            assert(y[i - x.len()] <= 31);
        }
    }
}

/// The numbers of a sequence of symbols are 5-bit numbers.
pub proof fn lemma_values_five_bit(symbols: Seq<U5>)
    ensures
        all_five_bit(values(symbols)),
        values(symbols).len() == symbols.len(),
{
    assert forall|i: int| 0 <= i < values(symbols).len() implies #[trigger] values(symbols)[i]
        <= 31 by {
        symbols[i].lemma_view_range();
    }
}

/// The first item that is no 5-bit number is the first that does not fit
/// five bits.
proof fn lemma_first_unfit_push(items: Seq<u8>, item: u8)
    requires
        first_unfit(items, 5) is None,
    ensures
        first_unfit(items.push(item), 5) == if item > 31 {
            Some(item)
        } else {
            None
        },
    decreases items.len(),
{
    lemma2_to64();
    if items.len() == 0 {
        assert(first_unfit(items.push(item).drop_first(), 5) is None);
    } else {
        assert(items.push(item).drop_first() == items.drop_first().push(item));
        lemma_first_unfit_push(items.drop_first(), item);
    }
}

/// The symbols for the numbers of `data`, or `InvalidData` with the first
/// number that needs more than five bits.
pub fn check_base32(data: &[u8]) -> (r: Result<Vec<U5>, Error>)
    ensures
        match first_unfit(data@, 5) {
            None => r matches Ok(v) && values(v@) == data@,
            Some(item) => r matches Err(e) && e@ == ErrorView::Bech32(
                Bech32Error::InvalidData(item),
            ),
        },
{
    let mut result: Vec<U5> = Vec::new();
    let mut i: usize = 0;
    while i < data.len()
        invariant
            i <= data.len(),
            first_unfit(data@.take(i as int), 5) is None,
            values(result@) == data@.take(i as int),
        decreases data.len() - i,
    {
        proof {
            assert(data@.take(i + 1) == data@.take(i as int).push(data@[i as int]));
            lemma_first_unfit_push(data@.take(i as int), data@[i as int]);
        }
        match U5::try_from_u8(data[i]) {
            Ok(symbol) => {
                result.push(symbol);
            },
            Err(e) => {
                proof {
                    lemma_first_unfit_prefix(data@, i + 1);
                }
                return Err(Error::from(e));
            },
        }
        i += 1;
    }
    proof {
        assert(data@.take(i as int) == data@);
    }
    Ok(result)
}

/// An item that does not fit in a part of a sequence is the first such item
/// of the whole.
proof fn lemma_first_unfit_prefix(items: Seq<u8>, n: int)
    requires
        0 <= n <= items.len(),
        first_unfit(items.take(n), 5) is Some,
    ensures
        first_unfit(items, 5) == first_unfit(items.take(n), 5),
    decreases n,
{
    if n > 0 && items[0] < pow2(5) {
        assert(items.take(n).drop_first() == items.drop_first().take(n - 1));
        lemma_first_unfit_prefix(items.drop_first(), n - 1);
    }
}

/// The numbers that the symbols of `data` stand for.
pub fn to_u8_vec(data: &[U5]) -> (v: Vec<u8>)
    ensures
        v@ == values(data@),
{
    let mut result: Vec<u8> = Vec::new();
    let mut i: usize = 0;
    while i < data.len()
        invariant
            i <= data.len(),
            result@ == values(data@).take(i as int),
        decreases data.len() - i,
    {
        let v = data[i].to_u8();
        result.push(v);
        i += 1;
    }
    result
}

} // verus!
