//! Light as it is sent.
use vstd::arithmetic::power2;
use vstd::prelude::*;

use crate::num;
use crate::varint;
use crate::world::chunk;
use crate::world::chunk::LightSection;

verus! {

/// Whether a light section is dark.
pub open spec fn unlit(light: LightSection) -> bool {
    light == LightSection::Single(0)
}

proof fn lemma_bound(digits: Seq<bool>)
    ensures
        chunk::binary(digits) < power2::pow2(digits.len()),
    decreases digits.len(),
{
    if digits.len() == 0 {
        power2::lemma2_to64();
    } else {
        lemma_bound(digits.drop_last());
        power2::lemma_pow2_unfold(digits.len());
    }
}

proof fn lemma_digit(digits: Seq<bool>, i: int)
    requires
        0 <= i < digits.len(),
    ensures
        (chunk::binary(digits) as int / power2::pow2(i as nat) as int) % 2 == if digits[i] {
            1int
        } else {
            0
        },
    decreases digits.len(),
{
    let n = (digits.len() - 1) as nat;
    let low = chunk::binary(digits.drop_last()) as int;
    let p = power2::pow2(i as nat) as int;
    lemma_bound(digits.drop_last());
    power2::lemma_pow2_pos(i as nat);
    if i == n {
        assert(low / p == 0 && (low + p) / p == 1) by (nonlinear_arith)
            requires
                0 <= low < p,
        ;
    } else {
        lemma_digit(digits.drop_last(), i);
        let rest = (n - i - 1) as nat;
        power2::lemma_pow2_adds(i as nat, (n - i) as nat);
        power2::lemma_pow2_unfold((n - i) as nat);
        let q = power2::pow2(rest) as int;
        let top = power2::pow2(n) as int;
        assert(top == p * (2 * q));
        assert((low + top) / p == low / p + 2 * q) by (nonlinear_arith)
            requires
                p > 0,
                top == p * (2 * q),
        ;
    }
}

/// Each light section has its own digit in the two sets that are sent: a one in the first if it is
/// sent, a one in the second if it is dark. There are no other digits.
pub proof fn masks_tell_lit_from_dark(light: Seq<LightSection>, i: int)
    requires
        light.len() == 26,
        0 <= i < 26,
    ensures
        chunk::lit_mask(light) < power2::pow2(26),
        chunk::dark_mask(light) < power2::pow2(26),
        (chunk::lit_mask(light) as int / power2::pow2(i as nat) as int) % 2 == if unlit(light[i]) {
            0int
        } else {
            1
        },
        (chunk::dark_mask(light) as int / power2::pow2(i as nat) as int) % 2 == if unlit(light[i]) {
            1int
        } else {
            0
        },
{
    let lit = light.map_values(|l: LightSection| !chunk::dark(l));
    let dark = light.map_values(|l: LightSection| chunk::dark(l));
    lemma_bound(lit);
    lemma_bound(dark);
    lemma_digit(lit, i);
    lemma_digit(dark, i);
}

/// Light that is the same everywhere is in both halves of all 2048 bytes; other light is sent as
/// it is.
pub proof fn light_is_in_both_halves(light: LightSection, i: int)
    requires
        light matches LightSection::Single(n) ==> n < 16,
        0 <= i < 2048,
    ensures
        chunk::light_bytes(light).len() == 2048,
        match light {
            LightSection::Single(n) => {
                &&& chunk::light_bytes(light)[i] / 16 == n
                &&& chunk::light_bytes(light)[i] % 16 == n
            },
            LightSection::Direct(bytes) => chunk::light_bytes(light)[i] == bytes@[i],
        },
{
    match light {
        LightSection::Single(n) => {},
        LightSection::Direct(bytes) => {
            assert(bytes@.len() == 2048);
        },
    }
}

proof fn lemma_lit_filter(light: Seq<LightSection>)
    ensures
        chunk::lit_count(light) == light.filter(|l: LightSection| !unlit(l)).len(),
        chunk::lit_bytes(light).len() == 2050 * chunk::lit_count(light),
    decreases light.len(),
{
    reveal(Seq::filter);
    if light.len() > 0 {
        lemma_lit_filter(light.drop_last());
        lemma_2048();
        lemma_len(light.last());
    }
}

proof fn lemma_2048()
    ensures
        varint::wire_i32(2048) == seq![0x80u8, 0x10],
{
    reveal_with_fuel(varint::wire, 3);
    assert(varint::wire_i32(2048) =~= seq![0x80u8, 0x10]);
}

proof fn lemma_len(light: LightSection)
    ensures
        chunk::light_bytes(light).len() == 2048,
{
    match light {
        LightSection::Single(n) => {},
        LightSection::Direct(bytes) => {
            assert(bytes@.len() == 2048);
        },
    }
}

/// The light sections that are not dark, and no others, are sent in their order. Each is 2048
/// bytes after its length, which takes two.
pub proof fn lit_sections_are_sent_in_order(light: Seq<LightSection>, j: int)
    requires
        0 <= j < light.filter(|l: LightSection| !unlit(l)).len(),
    ensures
        ({
            let lit = light.filter(|l: LightSection| !unlit(l));
            let bytes = chunk::lit_bytes(light);
            &&& chunk::lit_count(light) == lit.len()
            &&& bytes.len() == 2050 * lit.len()
            &&& bytes[2050 * j] == 0x80 && bytes[2050 * j + 1] == 0x10
            &&& bytes.subrange(2050 * j + 2, 2050 * j + 2050) == chunk::light_bytes(lit[j])
        }),
    decreases light.len(),
{
    let lit = light.filter(|l: LightSection| !unlit(l));
    let bytes = chunk::lit_bytes(light);
    lemma_lit_filter(light);
    lemma_2048();
    reveal(Seq::filter);
    if light.len() > 0 {
        let rest = light.drop_last();
        let fewer = rest.filter(|l: LightSection| !unlit(l));
        lemma_lit_filter(rest);
        lemma_len(light.last());
        if j < fewer.len() {
            lit_sections_are_sent_in_order(rest, j);
            assert(lit[j] == fewer[j]);
            assert(bytes.subrange(2050 * j + 2, 2050 * j + 2050) =~= chunk::lit_bytes(
                rest,
            ).subrange(2050 * j + 2, 2050 * j + 2050));
        } else {
            assert(bytes.subrange(2050 * j + 2, 2050 * j + 2050) =~= chunk::light_bytes(
                light.last(),
            ));
        }
    }
}

/// A set of no bits is one byte 0; any other is a byte 1 and then the set as a number of eight
/// bytes.
pub proof fn sets_of_bits(mask: u64)
    ensures
        mask == 0 ==> chunk::bitset(mask as nat) == seq![0u8],
        mask != 0 ==> {
            &&& chunk::bitset(mask as nat).len() == 9
            &&& chunk::bitset(mask as nat)[0] == 1
            &&& num::be_value(chunk::bitset(mask as nat).skip(1)) == mask
        },
{
    reveal_with_fuel(varint::wire, 2);
    assert(varint::wire_i32(0) =~= seq![0u8]);
    assert(varint::wire_i32(1) =~= seq![1u8]);
    num::lemma_pow256_values();
    num::be_round_trip(mask as nat, 8);
    assert(mask != 0 ==> chunk::bitset(mask as nat).skip(1) =~= num::be_bytes(mask as nat, 8));
}

/// The light of a chunk is sent as sets of what is sent of sky and block light, sets of what is
/// dark of each, then the number and the sections of sky light, then those of block light.
pub proof fn sky_light_comes_first(chunk: chunk::ChunkView)
    requires
        chunk.well_formed(),
    ensures
        ({
            let (sky, block) = (chunk.skylight, chunk.blocklight);
            let sets = chunk::bitset(chunk::lit_mask(sky)) + chunk::bitset(chunk::lit_mask(block))
                + chunk::bitset(chunk::dark_mask(sky)) + chunk::bitset(chunk::dark_mask(block));
            chunk::light_wire(chunk) == sets + (seq![chunk::lit_count(sky) as u8]
                + chunk::lit_bytes(sky)) + (seq![chunk::lit_count(block) as u8] + chunk::lit_bytes(
                block,
            ))
        }),
{
    lemma_few(chunk.skylight);
    lemma_few(chunk.blocklight);
}

proof fn lemma_few(light: Seq<LightSection>)
    requires
        light.len() == 26,
    ensures
        chunk::lights(light) == seq![chunk::lit_count(light) as u8] + chunk::lit_bytes(light),
{
    let n = chunk::lit_count(light);
    lemma_at_most(light);
    reveal_with_fuel(varint::wire, 2);
    assert(varint::wire(n) =~= seq![n as u8]);
}

proof fn lemma_at_most(light: Seq<LightSection>)
    ensures
        chunk::lit_count(light) <= light.len(),
    decreases light.len(),
{
    if light.len() > 0 {
        lemma_at_most(light.drop_last());
    }
}

} // verus!
