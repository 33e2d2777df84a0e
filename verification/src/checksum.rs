//! The checksum: the residue of a polynomial code over 5-bit symbols, kept in
//! a 40-bit state and seeded with the prefix of the address.

use vstd::prelude::*;
use crate::error::Error;
use crate::symbol::{all_five_bit, lemma_values_five_bit, values, U5};

verus! {

/// The generator that is added for bit 35 of the state.
pub const GENERATOR_0: u64 = 0x98_f2bc_8e61;

/// The generator that is added for bit 36 of the state.
pub const GENERATOR_1: u64 = 0x79_b76d_99e2;

/// The generator that is added for bit 37 of the state.
pub const GENERATOR_2: u64 = 0xf3_3e5f_b3c4;

/// The generator that is added for bit 38 of the state.
pub const GENERATOR_3: u64 = 0xae_2eab_e2a8;

/// The generator that is added for bit 39 of the state.
pub const GENERATOR_4: u64 = 0x1e_4f43_e470;

/// The state after one more symbol: the low 35 bits move up by five, the
/// symbol comes in below, and for each of the five bits that fell off the top
/// its generator is added.
pub open spec fn polymod_step(c: u64, d: u8) -> u64 {
    let c0 = c >> 35;
    let c1 = ((c & 0x07_ffff_ffff) << 5) ^ (d as u64);
    let c2 = if c0 & 0x01 != 0 {
        c1 ^ GENERATOR_0
    } else {
        c1
    };
    let c3 = if c0 & 0x02 != 0 {
        c2 ^ GENERATOR_1
    } else {
        c2
    };
    let c4 = if c0 & 0x04 != 0 {
        c3 ^ GENERATOR_2
    } else {
        c3
    };
    let c5 = if c0 & 0x08 != 0 {
        c4 ^ GENERATOR_3
    } else {
        c4
    };
    if c0 & 0x10 != 0 {
        c5 ^ GENERATOR_4
    } else {
        c5
    }
}

/// The state after the symbols of `data`, starting from 1.
pub open spec fn polymod_state(data: Seq<u8>) -> u64
    decreases data.len(),
{
    if data.len() == 0 {
        1
    } else {
        polymod_step(polymod_state(data.drop_last()), data.last())
    }
}

/// The low 40 bits of a state as eight symbols, the most significant first.
pub open spec fn state_symbols(c: u64) -> Seq<u8> {
    Seq::new(8, |i: int| ((c >> ((35 - 5 * i) as u64)) & 31) as u8)
}

/// The residue of `data`: its final state with the lowest bit flipped, as
/// eight symbols.
pub open spec fn polymod_spec(data: Seq<u8>) -> Seq<u8> {
    state_symbols(polymod_state(data) ^ 1)
}

/// The symbol that stands for a character of the prefix in the checksum: the
/// low five bits of its code point.
pub open spec fn prefix_symbol(c: char) -> u8 {
    (c as u32 & 31) as u8
}

/// The symbols that stand for a prefix in the checksum: the symbol of each
/// character, then one zero.
pub open spec fn prefix_symbols(prefix: Seq<char>) -> Seq<u8> {
    Seq::new(
        prefix.len() + 1,
        |i: int|
            if i < prefix.len() {
                prefix_symbol(prefix[i])
            } else {
                0u8
            },
    )
}

/// Eight zero symbols.
pub open spec fn zeros8() -> Seq<u8> {
    Seq::new(8, |i: int| 0u8)
}

/// The eight symbols that complete `payload` under `prefix`.
pub open spec fn checksum_spec(prefix: Seq<char>, payload: Seq<u8>) -> Seq<u8> {
    polymod_spec(prefix_symbols(prefix) + payload + zeros8())
}

/// Whether `payload`, which ends in its checksum, verifies under `prefix`.
pub open spec fn checksum_valid(prefix: Seq<char>, payload: Seq<u8>) -> bool {
    polymod_spec(prefix_symbols(prefix) + payload) == zeros8()
}

/// One more symbol keeps a 40-bit state within 40 bits.
proof fn lemma_step_range(c: u64, d: u8)
    requires
        c < 0x100_0000_0000,
        d <= 31,
    ensures
        polymod_step(c, d) < 0x100_0000_0000,
{
    assert(polymod_step(c, d) < 0x100_0000_0000) by (bit_vector)
        requires
            c < 0x100_0000_0000,
            d <= 31,
    ;
}

/// Every state is a 40-bit number.
pub proof fn lemma_state_range(data: Seq<u8>)
    requires
        all_five_bit(data),
    ensures
        polymod_state(data) < 0x100_0000_0000,
    decreases data.len(),
{
    if data.len() > 0 {
        lemma_state_range(data.drop_last());
        lemma_step_range(polymod_state(data.drop_last()), data.last());
    }
}

/// The state after one more symbol.
fn step(c: u64, d: u8) -> (r: u64)
    requires
        c < 0x100_0000_0000,
        d <= 31,
    ensures
        r == polymod_step(c, d),
        r < 0x100_0000_0000,
{
    proof {
        lemma_step_range(c, d);
    }
    let c0 = c >> 35;
    let mut r = ((c & 0x07_ffff_ffff) << 5) ^ (d as u64);
    if c0 & 0x01 != 0 {
        r = r ^ GENERATOR_0;
    }
    if c0 & 0x02 != 0 {
        r = r ^ GENERATOR_1;
    }
    if c0 & 0x04 != 0 {
        r = r ^ GENERATOR_2;
    }
    if c0 & 0x08 != 0 {
        r = r ^ GENERATOR_3;
    }
    if c0 & 0x10 != 0 {
        r = r ^ GENERATOR_4;
    }
    r
}

/// The residue of `data` as eight symbols. It never fails.
pub fn polymod(data: &[U5]) -> (r: Result<Vec<U5>, Error>)
    ensures
        r matches Ok(v) && values(v@) == polymod_spec(values(data@)),
{
    let ghost input = values(data@);
    proof {
        lemma_values_five_bit(data@);
    }
    let mut c: u64 = 1;
    let mut i: usize = 0;
    while i < data.len()
        invariant
            i <= data.len(),
            input == values(data@),
            all_five_bit(input),
            input.len() == data.len(),
            c == polymod_state(input.take(i as int)),
            c < 0x100_0000_0000,
        decreases data.len() - i,
    {
        let d = data[i].to_u8();
        proof {
            assert(input.take(i + 1).drop_last() == input.take(i as int));
        }
        c = step(c, d);
        i += 1;
    }
    proof {
        assert(input.take(i as int) == input);
    }
    let c = c ^ 1;
    let mut result: Vec<U5> = Vec::new();
    let mut k: u64 = 0;
    while k < 8
        invariant
            k <= 8,
            values(result@) == state_symbols(c).take(k as int),
        decreases 8 - k,
    {
        let shift: u64 = 35 - 5 * k;
        let low: u64 = (c >> shift) & 31;
        assert(low <= 31) by (bit_vector)
            requires
                low == (c >> shift) & 31,
        ;
        let symbol = U5::try_from_u8(low as u8)?;
        proof {
            assert(values(result@.push(symbol)) == values(result@).push(symbol@));
        }
        result.push(symbol);
        k += 1;
    }
    Ok(result)
}

/// The symbols that stand for `prefix` in the checksum. It never fails.
pub fn parse_prefix(prefix: &str) -> (r: Result<Vec<U5>, Error>)
    ensures
        r matches Ok(v) && values(v@) == prefix_symbols(prefix@),
{
    let ghost expected = prefix_symbols(prefix@);
    let mut result: Vec<U5> = Vec::new();
    for c in it: prefix.chars()
        invariant
            expected == prefix_symbols(prefix@),
            it.seq() == prefix@,
            values(result@) == expected.take(it.index() as int),
    {
        let code: u32 = c as u32;
        let low: u32 = code & 31;
        assert(low <= 31) by (bit_vector)
            requires
                low == code & 31,
        ;
        let symbol = U5::try_from_u8(low as u8)?;
        proof {
            assert(values(result@.push(symbol)) == values(result@).push(symbol@));
        }
        result.push(symbol);
    }
    let symbol = U5::try_from_u8(0)?;
    proof {
        assert(values(result@.push(symbol)) == values(result@).push(symbol@));
    }
    result.push(symbol);
    Ok(result)
}

/// Appends `items` to `target`.
pub fn append(target: &mut Vec<U5>, items: &[U5])
    ensures
        final(target)@ == old(target)@ + items@,
{
    let mut i: usize = 0;
    while i < items.len()
        invariant
            i <= items.len(),
            target@ == old(target)@ + items@.take(i as int),
        decreases items.len() - i,
    {
        target.push(items[i]);
        i += 1;
    }
}

/// Whether `payload`, which ends in its checksum, verifies under `prefix`:
/// whether the residue of the prefix symbols and the payload is all zero. It
/// never fails.
pub fn validate_checksum(prefix: &str, payload: &[U5]) -> (r: Result<bool, Error>)
    ensures
        r matches Ok(valid) && valid == checksum_valid(prefix@, values(payload@)),
{
    let mut data = parse_prefix(prefix)?;
    append(&mut data, payload);
    proof {
        assert(values(data@) == prefix_symbols(prefix@) + values(payload@));
    }
    let residue = polymod(data.as_slice())?;
    proof {
        lemma_values_five_bit(residue@);
    }
    let mut i: usize = 0;
    while i < residue.len()
        invariant
            i <= residue.len(),
            residue.len() == 8,
            values(residue@) == polymod_spec(prefix_symbols(prefix@) + values(payload@)),
            forall|j: int| 0 <= j < i ==> values(residue@)[j] == 0,
        decreases residue.len() - i,
    {
        if residue[i].to_u8() != 0 {
            proof {
                assert(values(residue@)[i as int] != zeros8()[i as int]);
            }
            return Ok(false);
        }
        i += 1;
    }
    proof {
        assert(values(residue@) == zeros8());
    }
    Ok(true)
}

/// Taking in one more symbol of a 40-bit number `x`, against taking in a zero.
proof fn lemma_absorb_step(z: u64, x: u64, shift: u64)
    requires
        x < 0x100_0000_0000,
        shift <= 35,
    ensures
        polymod_step(z ^ (x >> ((shift + 5) as u64)), ((x >> shift) & 31) as u8) == polymod_step(
            z,
            0,
        ) ^ (x >> shift),
{
    let w = x >> ((shift + 5) as u64);
    let s = ((x >> shift) & 31) as u8;
    assert(w < 0x8_0000_0000 && s <= 31 && (w << 5) ^ (s as u64) == x >> shift) by (bit_vector)
        requires
            x < 0x100_0000_0000,
            shift <= 35,
            w == x >> ((shift + 5) as u64),
            s == ((x >> shift) & 31) as u8,
    ;
    assert(polymod_step(z ^ w, s) == polymod_step(z, 0) ^ ((w << 5) ^ (s as u64)))
        by (bit_vector)
        requires
            w < 0x8_0000_0000,
            s <= 31,
    ;
}

/// After the first `k` symbols of a 40-bit number `x`, the state is the one
/// after `k` zeros with the top `5 * k` bits of `x` added.
proof fn lemma_absorb(pre: Seq<u8>, x: u64, k: nat)
    requires
        x < 0x100_0000_0000,
        k <= 8,
    ensures
        polymod_state(pre + state_symbols(x).take(k as int)) == polymod_state(
            pre + zeros8().take(k as int),
        ) ^ (x >> ((40 - 5 * k) as u64)),
    decreases k,
{
    if k == 0 {
        let z = polymod_state(pre + zeros8().take(0));
        assert(z == z ^ (x >> 40)) by (bit_vector)
            requires
                x < 0x100_0000_0000,
        ;
    } else {
        let j = (k - 1) as nat;
        lemma_absorb(pre, x, j);
        let with_symbols = pre + state_symbols(x).take(k as int);
        let with_zeros = pre + zeros8().take(k as int);
        assert(with_symbols.drop_last() == pre + state_symbols(x).take(j as int));
        assert(with_zeros.drop_last() == pre + zeros8().take(j as int));
        let shift = (35 - 5 * j) as u64;
        lemma_absorb_step(polymod_state(with_zeros.drop_last()), x, shift);
    }
}

/// A payload with its checksum behind it verifies: the residue of
/// `pre + polymod_spec(pre + zeros8())` is all zero.
pub proof fn lemma_checksum_verifies(pre: Seq<u8>)
    requires
        all_five_bit(pre),
    ensures
        polymod_spec(pre + polymod_spec(pre + zeros8())) == zeros8(),
{
    let z = polymod_state(pre + zeros8());
    lemma_state_range(pre + zeros8());
    let x = z ^ 1;
    assert(x < 0x100_0000_0000 && z ^ x == 1) by (bit_vector)
        requires
            x == z ^ 1,
            z < 0x100_0000_0000,
    ;
    lemma_absorb(pre, x, 8);
    assert(state_symbols(x).take(8) == state_symbols(x));
    assert(zeros8().take(8) == zeros8());
    assert(x >> 0 == x) by (bit_vector);
    let end = polymod_state(pre + state_symbols(x));
    lemma_zero_state_symbols();
    assert(end ^ 1 == 0) by (bit_vector)
        requires
            end == 1,
    ;
}

/// The symbols of the zero state are eight zeros.
proof fn lemma_zero_state_symbols()
    ensures
        state_symbols(0) == zeros8(),
{
    assert forall|i: int| 0 <= i < 8 implies state_symbols(0)[i] == 0 by {
        let shift = (35 - 5 * i) as u64;
        assert((0u64 >> shift) & 31 == 0) by (bit_vector);
    }
}

/// A 40-bit state whose residue is all zero is the state 1.
proof fn lemma_zero_residue_state(c: u64)
    requires
        c < 0x100_0000_0000,
        state_symbols(c ^ 1) == zeros8(),
    ensures
        c == 1,
{
    let y = c ^ 1;
    assert(state_symbols(y)[0] == 0 && state_symbols(y)[1] == 0 && state_symbols(y)[2] == 0
        && state_symbols(y)[3] == 0 && state_symbols(y)[4] == 0 && state_symbols(y)[5] == 0
        && state_symbols(y)[6] == 0 && state_symbols(y)[7] == 0);
    assert(c == 1) by (bit_vector)
        requires
            y == c ^ 1,
            c < 0x100_0000_0000,
            ((y >> 35) & 31) as u8 == 0,
            ((y >> 30) & 31) as u8 == 0,
            ((y >> 25) & 31) as u8 == 0,
            ((y >> 20) & 31) as u8 == 0,
            ((y >> 15) & 31) as u8 == 0,
            ((y >> 10) & 31) as u8 == 0,
            ((y >> 5) & 31) as u8 == 0,
            ((y >> 0) & 31) as u8 == 0,
    ;
}

/// Whether `a` and `b` hold the same symbols at the places from `start` up
/// to, not including, `end`.
pub open spec fn equal_within(a: Seq<u8>, b: Seq<u8>, start: int, end: int) -> bool {
    forall|j: int| start <= j < end ==> a[j] == b[j]
}

/// One more symbol on each side, where the two states differ in their low
/// `shift` bits at most: the new states differ in their low `shift + 5` bits
/// at most, and are equal only if the old ones and the two symbols are.
proof fn lemma_burst_step(sa: u64, sb: u64, da: u8, db: u8, shift: u64)
    requires
        shift <= 35,
        (sa ^ sb) >> shift == 0,
        da <= 31,
        db <= 31,
    ensures
        (polymod_step(sa, da) ^ polymod_step(sb, db)) >> ((shift + 5) as u64) == 0,
        polymod_step(sa, da) == polymod_step(sb, db) <==> sa == sb && da == db,
{
    let x = sa ^ sb;
    let e = (da ^ db) as u64;
    let d = polymod_step(sa, da) ^ polymod_step(sb, db);
    assert(x < 0x8_0000_0000) by (bit_vector)
        requires
            x >> shift == 0,
            shift <= 35,
    ;
    assert(d == (x << 5) ^ e) by (bit_vector)
        requires
            d == polymod_step(sa, da) ^ polymod_step(sb, db),
            x == sa ^ sb,
            e == (da ^ db) as u64,
            x < 0x8_0000_0000,
    ;
    assert(e <= 31 && (e == 0 <==> da == db)) by (bit_vector)
        requires
            e == (da ^ db) as u64,
            da <= 31,
            db <= 31,
    ;
    assert(d >> ((shift + 5) as u64) == 0 && (d == 0 <==> x == 0 && e == 0)) by (bit_vector)
        requires
            d == (x << 5) ^ e,
            x >> shift == 0,
            shift <= 35,
            e <= 31,
    ;
    assert(x == 0 <==> sa == sb) by (bit_vector)
        requires
            x == sa ^ sb,
    ;
    assert(d == 0 <==> polymod_step(sa, da) == polymod_step(sb, db)) by (bit_vector)
        requires
            d == polymod_step(sa, da) ^ polymod_step(sb, db),
    ;
}

/// Through a stretch of at most eight symbols that begins at `start`, the
/// states of two sequences that agree before it differ in their low
/// `5 * (k - start)` bits at most, and are equal only if the sequences agree
/// in the stretch.
proof fn lemma_burst_window(a: Seq<u8>, b: Seq<u8>, start: int, k: int)
    requires
        all_five_bit(a),
        all_five_bit(b),
        a.len() == b.len(),
        0 <= start <= k <= a.len(),
        k - start <= 8,
        equal_within(a, b, 0, start),
    ensures
        (polymod_state(a.take(k)) ^ polymod_state(b.take(k))) >> ((5 * (k - start)) as u64) == 0,
        polymod_state(a.take(k)) == polymod_state(b.take(k)) <==> equal_within(a, b, start, k),
    decreases k - start,
{
    let sa = polymod_state(a.take(k));
    let sb = polymod_state(b.take(k));
    if k == start {
        assert(a.take(k) == b.take(k));
        assert((sa ^ sa) >> 0 == 0) by (bit_vector);
    } else {
        lemma_burst_window(a, b, start, k - 1);
        assert(a.take(k).drop_last() == a.take(k - 1));
        assert(b.take(k).drop_last() == b.take(k - 1));
        lemma_burst_step(
            polymod_state(a.take(k - 1)),
            polymod_state(b.take(k - 1)),
            a[k - 1],
            b[k - 1],
            (5 * (k - 1 - start)) as u64,
        );
    }
}

/// Two sequences of symbols that are equal but for a stretch of at most
/// eight symbols, and differ there, end in different states.
pub proof fn lemma_burst_change_state(a: Seq<u8>, b: Seq<u8>, start: int, end: int)
    requires
        all_five_bit(a),
        all_five_bit(b),
        a.len() == b.len(),
        0 <= start <= end <= a.len(),
        end - start <= 8,
        equal_within(a, b, 0, start),
        equal_within(a, b, end, a.len() as int),
        !equal_within(a, b, start, end),
    ensures
        polymod_state(a) != polymod_state(b),
    decreases a.len(),
{
    if a.len() == end {
        lemma_burst_window(a, b, start, end);
        assert(a.take(end) == a);
        assert(b.take(end) == b);
    } else {
        let j = choose|j: int| start <= j < end && a[j] != b[j];
        assert(a.drop_last()[j] != b.drop_last()[j]);
        lemma_burst_change_state(a.drop_last(), b.drop_last(), start, end);
        lemma_state_range(a.drop_last());
        lemma_state_range(b.drop_last());
        let ca = polymod_state(a.drop_last());
        let cb = polymod_state(b.drop_last());
        let d = a.last();
        assert(polymod_step(ca, d) != polymod_step(cb, d)) by (bit_vector)
            requires
                ca != cb,
                ca < 0x100_0000_0000,
                cb < 0x100_0000_0000,
        ;
    }
}

/// The checksum detects every change within a stretch of at most eight
/// symbols: of two sequences that are equal but for such a stretch, and
/// differ there, at most one has an all-zero residue.
pub proof fn lemma_burst_change_detected(a: Seq<u8>, b: Seq<u8>, start: int, end: int)
    requires
        all_five_bit(a),
        all_five_bit(b),
        a.len() == b.len(),
        0 <= start <= end <= a.len(),
        end - start <= 8,
        equal_within(a, b, 0, start),
        equal_within(a, b, end, a.len() as int),
        !equal_within(a, b, start, end),
        polymod_spec(a) == zeros8(),
    ensures
        polymod_spec(b) != zeros8(),
{
    lemma_burst_change_state(a, b, start, end);
    lemma_state_range(a);
    lemma_state_range(b);
    lemma_zero_residue_state(polymod_state(a));
    if polymod_spec(b) == zeros8() {
        lemma_zero_residue_state(polymod_state(b));
    }
}

/// The same symbols behind two sequences lead them to the same state if
/// they were in the same state before, and only then.
pub proof fn lemma_common_suffix(x: Seq<u8>, y: Seq<u8>, suffix: Seq<u8>)
    requires
        all_five_bit(x),
        all_five_bit(y),
        all_five_bit(suffix),
    ensures
        polymod_state(x + suffix) == polymod_state(y + suffix) <==> polymod_state(x)
            == polymod_state(y),
    decreases suffix.len(),
{
    if suffix.len() == 0 {
        assert(x + suffix == x);
        assert(y + suffix == y);
    } else {
        let front = suffix.drop_last();
        lemma_common_suffix(x, y, front);
        assert((x + suffix).drop_last() == x + front);
        assert((y + suffix).drop_last() == y + front);
        lemma_state_range(x + front);
        lemma_state_range(y + front);
        let cx = polymod_state(x + front);
        let cy = polymod_state(y + front);
        let d = suffix.last();
        assert(polymod_step(cx, d) == polymod_step(cy, d) <==> cx == cy) by (bit_vector)
            requires
                cx < 0x100_0000_0000,
                cy < 0x100_0000_0000,
        ;
    }
}

/// Of a payload that verifies under one prefix: it verifies under another
/// if the symbols of the two prefixes lead to the same state, and only then.
pub proof fn lemma_prefix_state_decides(prefix: Seq<char>, other: Seq<char>, payload: Seq<u8>)
    requires
        all_five_bit(payload),
        checksum_valid(prefix, payload),
    ensures
        checksum_valid(other, payload) <==> polymod_state(prefix_symbols(other)) == polymod_state(
            prefix_symbols(prefix),
        ),
{
    let a = prefix_symbols(prefix) + payload;
    let b = prefix_symbols(other) + payload;
    lemma_prefix_symbols_five_bit(prefix);
    lemma_prefix_symbols_five_bit(other);
    lemma_common_suffix(prefix_symbols(prefix), prefix_symbols(other), payload);
    lemma_state_range(a);
    lemma_state_range(b);
    lemma_zero_residue_state(polymod_state(a));
    if polymod_spec(b) == zeros8() {
        lemma_zero_residue_state(polymod_state(b));
    }
    if polymod_state(b) == 1 {
        lemma_zero_state_symbols();
        assert(1u64 ^ 1 == 0) by (bit_vector);
    }
}

/// The symbols of a prefix are 5-bit numbers.
pub proof fn lemma_prefix_symbols_five_bit(prefix: Seq<char>)
    ensures
        all_five_bit(prefix_symbols(prefix)),
{
    assert forall|i: int| 0 <= i < prefix_symbols(prefix).len() implies #[trigger] prefix_symbols(
        prefix,
    )[i] <= 31 by {
        if i < prefix.len() {
            let code = prefix[i] as u32;
            assert(code & 31 <= 31) by (bit_vector);
        }
    }
}

} // verus!
