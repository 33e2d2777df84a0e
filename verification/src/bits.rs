//! Regrouping of a bit string: from items of one width to items of another.
//!
//! A sequence of items, each `width` bits wide, is read as one string of bits,
//! the most significant bit of the first item first. Regrouping cuts the same
//! string into items of another width. The work itself is done by
//! `bech32::convert_bits`; this module says what comes back, and proves that
//! regrouping bytes into 5-bit symbols and back gives the bytes again.

use vstd::prelude::*;
use vstd::arithmetic::div_mod::{
    lemma_basic_div, lemma_div_denominator, lemma_fundamental_div_mod,
    lemma_fundamental_div_mod_converse,
};
use vstd::arithmetic::mul::lemma_mul_inequality;
use vstd::arithmetic::power2::{lemma2_to64, lemma_pow2_pos, lemma_pow2_unfold, pow2};
use crate::error::Bech32Error;

verus! {

/// Bit `k` of the string that writes each item of `items` with `width` bits,
/// most significant bit first. Outside the string it is `false`.
pub open spec fn stream_bit(items: Seq<u8>, width: nat, k: int) -> bool {
    &&& 0 <= k < items.len() * width
    &&& (items[k / (width as int)] as nat / pow2((width - 1 - k % (width as int)) as nat)) % 2
        == 1
}

/// The number that the `count` bits from bit `start` on spell, most
/// significant bit first.
pub open spec fn window(items: Seq<u8>, width: nat, start: int, count: nat) -> nat
    decreases count,
{
    if count == 0 {
        0
    } else {
        2 * window(items, width, start, (count - 1) as nat) + if stream_bit(
            items,
            width,
            start + count - 1,
        ) {
            1nat
        } else {
            0nat
        }
    }
}

/// The first `n` items of width `to` of the bit string of `items`. Where the
/// string ends inside an item, zero bits fill it.
pub open spec fn groups(items: Seq<u8>, from: nat, to: nat, n: nat) -> Seq<u8> {
    Seq::new(n, |j: int| window(items, from, j * to, to) as u8)
}

/// Whether every item can be written with `width` bits.
pub open spec fn fits(items: Seq<u8>, width: nat) -> bool {
    forall|i: int| 0 <= i < items.len() ==> (#[trigger] items[i]) < pow2(width)
}

/// The first item that cannot be written with `width` bits, if there is one.
pub open spec fn first_unfit(items: Seq<u8>, width: nat) -> Option<u8>
    decreases items.len(),
{
    if items.len() == 0 {
        None
    } else if items[0] >= pow2(width) {
        Some(items[0])
    } else {
        first_unfit(items.drop_first(), width)
    }
}

/// Whether the bit string of `items` holds only zero bits from bit `start` on.
pub open spec fn zero_from(items: Seq<u8>, width: nat, start: int) -> bool {
    forall|k: int| start <= k < items.len() * width ==> !#[trigger] stream_bit(items, width, k)
}

/// The regrouping of `items` from width `from` to width `to`.
///
/// An item that is too wide for `from` bits is refused. With `pad`, an
/// unfinished last item is filled with zero bits. Without it the bits that do
/// not fill an item are dropped; they must be fewer than `from` and all zero.
pub open spec fn convert_bits_spec(items: Seq<u8>, from: nat, to: nat, pad: bool) -> Result<
    Seq<u8>,
    Bech32Error,
> {
    let total = items.len() * from;
    let rest = total % to;
    match first_unfit(items, from) {
        Some(item) => Err(Bech32Error::InvalidData(item)),
        None => if pad {
            Ok(groups(items, from, to, ((total + to - 1) / (to as int)) as nat))
        } else if rest >= from || !zero_from(items, from, total - rest) {
            Err(Bech32Error::InvalidPadding)
        } else {
            Ok(groups(items, from, to, total / to))
        },
    }
}

/// The 5-bit symbols of a sequence of bytes, the last one filled with zero
/// bits.
pub open spec fn bytes_to_symbols(bytes: Seq<u8>) -> Seq<u8> {
    groups(bytes, 8, 5, ((bytes.len() * 8 + 4) / 5) as nat)
}

/// Regroups `data` with `bech32::convert_bits`.
///
/// Trusted: that function's source reads each item as `from` bits, refuses
/// with `InvalidData` the first item that is wider, emits every full run of
/// `to` bits in order, and at the end either pads the unfinished run with
/// zeros (`pad`) or, without `pad`, refuses with `InvalidPadding` when `from`
/// or more bits are left over or when a bit left over is set. It panics
/// unless both widths are in `1..=8`.
#[verifier::external_body]
pub(crate) fn convert_bits(data: &Vec<u8>, from: u32, to: u32, pad: bool) -> (out: Result<
    Vec<u8>,
    Bech32Error,
>)
    requires
        1 <= from <= 8,
        1 <= to <= 8,
    ensures
        match out {
            Ok(v) => convert_bits_spec(data@, from as nat, to as nat, pad) == Ok::<
                Seq<u8>,
                Bech32Error,
            >(v@),
            Err(e) => convert_bits_spec(data@, from as nat, to as nat, pad) == Err::<
                Seq<u8>,
                Bech32Error,
            >(e),
        },
{
    match bech32::convert_bits(data, from, to, pad) {
        Ok(v) => Ok(v),
        Err(bech32::Error::MissingSeparator) => Err(Bech32Error::MissingSeparator),
        Err(bech32::Error::InvalidChecksum) => Err(Bech32Error::InvalidChecksum),
        Err(bech32::Error::InvalidLength) => Err(Bech32Error::InvalidLength),
        Err(bech32::Error::InvalidChar(c)) => Err(Bech32Error::InvalidChar(c)),
        Err(bech32::Error::InvalidData(v)) => Err(Bech32Error::InvalidData(v)),
        Err(bech32::Error::InvalidPadding) => Err(Bech32Error::InvalidPadding),
        Err(bech32::Error::MixedCase) => Err(Bech32Error::MixedCase),
    }
}

/// Where every item fits its width, none is the first that does not.
pub proof fn lemma_fits_none_unfit(items: Seq<u8>, width: nat)
    requires
        fits(items, width),
    ensures
        first_unfit(items, width) is None,
    decreases items.len(),
{
    if items.len() > 0 {
        assert(items[0] < pow2(width));
        assert forall|i: int| 0 <= i < items.drop_first().len() implies (
        #[trigger] items.drop_first()[i]) < pow2(width) by {}
        lemma_fits_none_unfit(items.drop_first(), width);
    }
}

/// A window of `count` bits spells a number below `2^count`.
pub proof fn lemma_window_bound(items: Seq<u8>, width: nat, start: int, count: nat)
    ensures
        window(items, width, start, count) < pow2(count),
    decreases count,
{
    if count == 0 {
        lemma2_to64();
    } else {
        lemma_window_bound(items, width, start, (count - 1) as nat);
        lemma_pow2_unfold(count);
    }
}

/// Bit `b` of the number that a window spells is bit `start + b` of the string.
pub proof fn lemma_window_bit(items: Seq<u8>, width: nat, start: int, count: nat, b: int)
    requires
        0 <= b < count,
    ensures
        ((window(items, width, start, count) / pow2((count - 1 - b) as nat)) % 2 == 1)
            == stream_bit(items, width, start + b),
    decreases count,
{
    let whole = window(items, width, start, count);
    if b == count - 1 {
        lemma2_to64();
        assert(whole / 1 == whole);
    } else {
        // The last bit of the window does not reach bit `b`: halve both sides.
        lemma_window_bit(items, width, start, (count - 1) as nat, b);
        let p = pow2((count - 2 - b) as nat);
        lemma_pow2_pos((count - 2 - b) as nat);
        lemma_pow2_unfold((count - 1 - b) as nat);
        lemma_div_denominator(whole as int, 2, p as int);
    }
}

/// Two windows of the same length whose bits agree spell the same number.
pub proof fn lemma_window_same(
    a: Seq<u8>,
    width_a: nat,
    start_a: int,
    b: Seq<u8>,
    width_b: nat,
    start_b: int,
    count: nat,
)
    requires
        forall|k: int|
            start_a <= k < start_a + count ==> #[trigger] stream_bit(a, width_a, k) == stream_bit(
                b,
                width_b,
                k - start_a + start_b,
            ),
    ensures
        window(a, width_a, start_a, count) == window(b, width_b, start_b, count),
    decreases count,
{
    if count > 0 {
        lemma_window_same(a, width_a, start_a, b, width_b, start_b, (count - 1) as nat);
    }
}

/// The first `count` bits of an item spell the item without its last
/// `width - count` bits.
pub proof fn lemma_window_in_item(items: Seq<u8>, width: nat, j: int, count: nat)
    requires
        0 <= j < items.len(),
        count <= width,
        items[j] < pow2(width),
    ensures
        window(items, width, j * width, count) == items[j] as nat / pow2((width - count) as nat),
    decreases count,
{
    let x = items[j] as nat;
    if count == 0 {
        lemma_basic_div(x as int, pow2(width) as int);
    } else {
        lemma_window_in_item(items, width, j, (count - 1) as nat);
        let k = j * width + count - 1;
        let p = pow2((width - count) as nat);
        lemma_pow2_pos((width - count) as nat);
        lemma_pow2_unfold((width - count + 1) as nat);
        lemma_fundamental_div_mod_converse(k, width as int, j, count - 1);
        assert(0 <= k < items.len() * width) by {
            lemma_mul_inequality(j + 1, items.len() as int, width as int);
            assert((j + 1) * width == j * width + width) by (nonlinear_arith);
            assert(0 <= j * width) by (nonlinear_arith)
                requires
                    0 <= j,
            ;
        }
        lemma_div_denominator(x as int, p as int, 2);
    }
}

/// Regrouping keeps the bit string: bit `k` of the regrouped items is bit `k`
/// of the items that were given, and each regrouped item fits `to` bits.
pub proof fn lemma_groups_bits(items: Seq<u8>, from: nat, to: nat, n: nat, k: int)
    requires
        1 <= to <= 8,
        0 <= k < n * to,
    ensures
        stream_bit(groups(items, from, to, n), to, k) == stream_bit(items, from, k),
        groups(items, from, to, n)[k / (to as int)] < pow2(to),
{
    let j = k / (to as int);
    let b = k % (to as int);
    lemma_fundamental_div_mod(k, to as int);
    assert(0 <= j < n) by (nonlinear_arith)
        requires
            0 <= k < n * to,
            k == to * j + b,
            0 <= b < to,
    ;
    lemma_window_bound(items, from, j * to, to);
    lemma2_to64();
    lemma_window_bit(items, from, j * to, to, b);
    assert(j * to + b == k) by (nonlinear_arith)
        requires
            k == to * j + b,
    ;
}

/// The items that regrouping gives all fit the new width.
pub proof fn lemma_groups_fit(items: Seq<u8>, from: nat, to: nat, n: nat)
    requires
        1 <= to <= 8,
    ensures
        fits(groups(items, from, to, n), to),
{
    let out = groups(items, from, to, n);
    assert forall|j: int| 0 <= j < out.len() implies (#[trigger] out[j]) < pow2(to) by {
        lemma_window_bound(items, from, j * to, to);
        lemma2_to64();
    }
}

/// Bytes that are regrouped into 5-bit symbols with padding come back when
/// the symbols are regrouped into bytes without padding.
pub proof fn lemma_regroup_round_trip(bytes: Seq<u8>)
    ensures
        convert_bits_spec(bytes, 8, 5, true) == Ok::<Seq<u8>, Bech32Error>(
            bytes_to_symbols(bytes),
        ),
        fits(bytes_to_symbols(bytes), 5),
        convert_bits_spec(bytes_to_symbols(bytes), 5, 8, false) == Ok::<Seq<u8>, Bech32Error>(
            bytes,
        ),
{
    lemma2_to64();
    let n = bytes.len();
    let symbols = bytes_to_symbols(bytes);
    let m = symbols.len();
    lemma_fits_none_unfit(bytes, 8);
    lemma_groups_fit(bytes, 8, 5, m);
    lemma_fits_none_unfit(symbols, 5);
    // The symbols spell the bits of the bytes, and zeros behind them.
    assert forall|k: int| 0 <= k < m * 5 implies stream_bit(symbols, 5, k) == stream_bit(
        bytes,
        8,
        k,
    ) by {
        lemma_groups_bits(bytes, 8, 5, m, k);
    }
    // So each byte that they are regrouped into is the byte that was given.
    let back = groups(symbols, 5, 8, n);
    assert forall|j: int| 0 <= j < n implies back[j] == bytes[j] by {
        assert forall|k: int| j * 8 <= k < j * 8 + 8 implies #[trigger] stream_bit(
            symbols,
            5,
            k,
        ) == stream_bit(bytes, 8, k - j * 8 + j * 8) by {}
        lemma_window_same(symbols, 5, j * 8, bytes, 8, j * 8, 8);
        lemma_window_in_item(bytes, 8, j, 8);
        assert(window(bytes, 8, j * 8, 8) == bytes[j] as nat / 1);
    }
    assert(back =~= bytes);
}

} // verus!
