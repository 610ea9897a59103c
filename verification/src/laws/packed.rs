//! Packed entries and palettes, by arithmetic.
use vstd::arithmetic::power2;
use vstd::bits;
use vstd::prelude::*;

use crate::laws::sent;
use crate::num;
use crate::serialize;
use crate::varint;
use crate::varint::VarInt;
use crate::world::packing;
use crate::world::palette;
use crate::world::section;

verus! {

/// A number needs as many bits as the least power of two that is greater has.
pub proof fn numbers_need_their_bits(n: nat)
    ensures
        n < power2::pow2(packing::bit_length(n)),
        n > 0 ==> packing::bit_length(n) > 0 && power2::pow2(
            (packing::bit_length(n) - 1) as nat,
        ) <= n,
        packing::bit_length(0) == 0,
    decreases n,
{
    power2::lemma2_to64();
    if n > 0 {
        numbers_need_their_bits(n / 2);
        let b = packing::bit_length(n / 2);
        power2::lemma_pow2_unfold(b + 1);
        if b > 0 {
            power2::lemma_pow2_unfold(b);
        }
    }
}

/// A palette's indices have bits for every place in the palette, and one bit less would be too few.
pub proof fn indices_have_just_enough_bits(section: section::SectionView)
    requires
        section.well_formed(),
        section.shape is Indirect,
    ensures
        section.shape->palette.len() <= power2::pow2(section.shape->bits as nat),
        section.shape->palette.len() > power2::pow2((section.shape->bits - 1) as nat),
        section.shape->palette.len() >= 2,
{
    numbers_need_their_bits((section.shape->palette.len() - 1) as nat);
}

/// On the wire, the indices have at least four bits, and otherwise just enough.
pub proof fn sent_indices_have_four_bits_or_more(section: section::SectionView)
    requires
        section.well_formed(),
        section.shape is Indirect,
    ensures
        ({
            let bits = section::section_wire(section)[2];
            let entries = section.shape->palette.len();
            &&& bits >= 4
            &&& entries <= power2::pow2(bits as nat)
            &&& bits > 4 ==> entries > power2::pow2((bits - 1) as nat)
        }),
{
    indices_have_just_enough_bits(section);
    num::lemma_be_bytes_len(section::solid_count(section.blocks), 2);
    let bits = section.shape->bits;
    if bits < 4 {
        power2::lemma_pow2_strictly_increases(bits as nat, 4);
    }
}

/// As many entries are in a word as fit, and as few words are used as hold all entries.
pub proof fn words_are_as_full_as_can_be(count: int, bits: u8)
    requires
        1 <= bits <= 64,
        0 <= count,
    ensures
        packing::per_word(bits) * bits <= 64 < (packing::per_word(bits) + 1) * bits,
        packing::word_count(count, bits) * packing::per_word(bits) >= count,
        (packing::word_count(count, bits) - 1) * packing::per_word(bits) < count,
{
    packing::lemma_per_word(bits);
    packing::lemma_word_count_bounds(count, bits);
    let (p, b) = (packing::per_word(bits), bits as int);
    let n = packing::word_count(count, bits);
    assert((64int / b) * b <= 64 && 64 < (64int / b + 1) * b) by (nonlinear_arith)
        requires
            1 <= b <= 64,
    ;
    assert(n * p >= count && (n - 1) * p < count) by (nonlinear_arith)
        requires
            p >= 1,
            0 <= count,
            n == (count + p - 1) / p,
    ;
}

/// The mask of some bits is one less than the next power of two.
pub proof fn masks_have_their_bits(bits: u8)
    requires
        1 <= bits <= 64,
    ensures
        packing::mask(bits) == power2::pow2(bits as nat) - 1,
{
    let b = bits as u64;
    let m = packing::mask(bits);
    power2::lemma2_to64();
    if bits == 64 {
        assert(m == 0xffff_ffff_ffff_ffffu64) by (bit_vector)
            requires
                b == 64,
                m == 0xffff_ffff_ffff_ffffu64 >> ((64 - b) as u64),
        ;
    } else {
        assert(m == (1u64 << b) - 1) by (bit_vector)
            requires
                1 <= b < 64,
                m == 0xffff_ffff_ffff_ffffu64 >> ((64 - b) as u64),
        ;
        bits::lemma_u64_pow2_no_overflow(bits as nat);
        bits::lemma_u64_shl_is_mul(1, b);
    }
}

proof fn lemma_low_bits(v: u64, bits: u8)
    requires
        1 <= bits <= 64,
    ensures
        v & packing::mask(bits) == v as nat % power2::pow2(bits as nat),
{
    masks_have_their_bits(bits);
    if bits == 64 {
        power2::lemma2_to64();
        let m = packing::mask(bits);
        assert(v & m == v) by (bit_vector)
            requires
                m == 0xffff_ffff_ffff_ffffu64,
        ;
    } else {
        bits::lemma_u64_pow2_no_overflow(bits as nat);
        bits::lemma_u64_low_bits_mask_is_mod(v, bits as nat);
    }
}

/// Packed values read as their remainders by the power of two of their bits; the places after the
/// last value read as 0.
pub proof fn packed_values_read_back(values: Seq<u64>, bits: u8, i: int)
    requires
        1 <= bits <= 64,
        0 <= i < packing::word_count(values.len() as int, bits) * (64int / (bits as int)),
    ensures
        packing::pack(values, bits).len() == packing::word_count(values.len() as int, bits),
        packing::entry(packing::pack(values, bits), i, bits) == if i < values.len() {
            values[i] as int % (power2::pow2(bits as nat) as int)
        } else {
            0
        },
{
    packing::lemma_per_word(bits);
    packing::lemma_word_count_bounds(values.len() as int, bits);
    let p = packing::per_word(bits);
    let n = packing::word_count(values.len() as int, bits);
    assert(i / p < n) by (nonlinear_arith)
        requires
            p >= 1,
            0 <= i < n * p,
    ;
    packing::pack_then_read(values, bits, i);
    if i < values.len() {
        lemma_low_bits(values[i], bits);
    }
}

/// An entry that is written reads as the remainder of its value; every other entry reads as
/// before.
pub proof fn written_entries_read_back(data: Seq<u64>, bits: u8, i: int, v: u64, k: int)
    requires
        1 <= bits <= 64,
        0 <= i,
        0 <= k,
        i / (64int / (bits as int)) < data.len(),
        k / (64int / (bits as int)) < data.len(),
    ensures
        packing::with_entry(data, i, bits, v).len() == data.len(),
        packing::entry(packing::with_entry(data, i, bits, v), k, bits) as int == if k == i {
            v as int % (power2::pow2(bits as nat) as int)
        } else {
            packing::entry(data, k, bits) as int
        },
{
    packing::lemma_place(i, i + 1, bits);
    packing::write_then_read(data, bits, i, v, k);
    lemma_low_bits(v, bits);
}

/// One value is sent as no bits and the value; indices as their bits, the palette as a list, and
/// the words; values themselves as their bits and the packed words.
pub proof fn palettes_come_before_their_indices(
    value: i32,
    bits: u8,
    entries: Seq<VarInt>,
    data: Seq<u64>,
)
    ensures
        palette::single_wire(value) == seq![0u8] + varint::wire_i32(value),
        palette::indirect_wire(bits, entries, data) == seq![bits] + serialize::list(entries)
            + palette::words_wire(data),
        palette::direct_wire(bits, data) == seq![bits] + palette::words_wire(
            packing::pack(data, bits),
        ),
{
}

/// Block states of one kind are sent as such. Indices that have four bits or more are sent as they
/// are kept, narrower ones with four bits and the same values. States that are sent themselves have
/// fifteen bits.
pub proof fn blocks_have_four_bits_or_more(container: palette::ContainerView<u16>, i: int)
    requires
        0 <= i < 4096,
        palette::blocks_have_wire(container),
    ensures
        match container {
            palette::ContainerView::Single(v) => palette::blocks_wire(container) == seq![0u8]
                + varint::wire_i32(v as i32),
            palette::ContainerView::Indirect { bits, palette, data } => {
                let sent = palette.map_values(|v: u16| VarInt(v as i32));
                if bits >= 4 {
                    palette::blocks_wire(container) == seq![bits] + serialize::list(sent)
                        + palette::words_wire(data)
                } else {
                    let wider = palette::block_wire_data(bits, data);
                    &&& palette::blocks_wire(container) == seq![4u8] + serialize::list(sent)
                        + palette::words_wire(wider)
                    &&& wider.len() == 256
                    &&& packing::entry(wider, i, 4) == packing::entry(data, i, bits)
                }
            },
            palette::ContainerView::Direct(values) => palette::blocks_wire(container) == seq![15u8]
                + palette::words_wire(
                packing::pack(values.map_values(|v: u16| v as u64), 15),
            ),
        },
{
    if let palette::ContainerView::Indirect { bits, palette, data } = container {
        if bits < 4 {
            let values = packing::unpack(data, bits, 4096);
            assert(packing::per_word(4) == 16);
            packed_values_read_back(values, 4, i);
            packing::lemma_place(i, 4096, bits);
            sent::entries_are_runs_of_digits(data, i, bits);
            power2::lemma2_to64();
            if bits < 4 {
                power2::lemma_pow2_strictly_increases(bits as nat, 4);
            }
            assert(values[i] == packing::entry(data, i, bits));
            let p = power2::pow2(bits as nat) as int;
            power2::lemma_pow2_pos(bits as nat);
            assert(values[i] < p);
        }
    }
}

/// Biomes of one kind are sent as such. Indices have at least one bit. Biomes that are sent
/// themselves have just enough bits for the greatest of them, and at least one.
pub proof fn biomes_have_one_bit_or_more(container: palette::ContainerView<u8>)
    ensures
        match container {
            palette::ContainerView::Single(v) => palette::biomes_wire(container) == seq![0u8]
                + varint::wire_i32(v as i32),
            palette::ContainerView::Indirect { bits, palette, data } => {
                let sent = palette.map_values(|v: u8| VarInt(v as i32));
                &&& palette::biomes_wire(container)[0] == if bits == 0 {
                    1
                } else {
                    bits
                }
                &&& palette::biomes_wire(container).skip(1) == serialize::list(sent)
                    + palette::words_wire(data)
            },
            palette::ContainerView::Direct(values) => {
                let bits = palette::biomes_wire(container)[0];
                &&& 1 <= bits <= 8
                &&& forall|i: int|
                    0 <= i < values.len() ==> (#[trigger] values[i] as nat) < power2::pow2(
                        bits as nat,
                    )
                &&& bits > 1 ==> exists|i: int|
                    0 <= i < values.len() && #[trigger] values[i] as nat >= power2::pow2(
                        (bits - 1) as nat,
                    )
                &&& palette::biomes_wire(container).skip(1) == palette::words_wire(
                    packing::pack(values.map_values(|v: u8| v as u64), bits),
                )
            },
        },
{
    match container {
        palette::ContainerView::Single(v) => {},
        palette::ContainerView::Indirect { bits, palette, data } => {
            let sent = palette.map_values(|v: u8| VarInt(v as i32));
            let rest = serialize::list(sent) + palette::words_wire(data);
            assert(palette::biomes_wire(container).skip(1) =~= rest);
        },
        palette::ContainerView::Direct(values) => {
            let wide = values.map_values(|v: u8| v as u64);
            let max = palette::greatest(wide);
            lemma_greatest(wide);
            assert forall|i: int| 0 <= i < wide.len() implies #[trigger] wide[i] <= 255 by {
                assert(wide[i] == values[i] as u64);
            }
            numbers_need_their_bits(max as nat);
            packing::lemma_bit_length_grows(max as nat, 255);
            assert(packing::bit_length(255) == 8) by {
                reveal_with_fuel(packing::bit_length, 9);
            }
            power2::lemma2_to64();
            let bits: u8 = if max == 0 {
                1
            } else {
                packing::bit_length(max as nat) as u8
            };
            assert(palette::biomes_wire(container)[0] == bits);
            assert(palette::biomes_wire(container).skip(1) =~= palette::words_wire(
                packing::pack(wide, bits),
            ));
            assert forall|i: int| 0 <= i < values.len() implies (#[trigger] values[i] as nat)
                < power2::pow2(bits as nat) by {
                assert(wide[i] == values[i] as u64);
            }
            if bits > 1 {
                let i = wide.index_of(max);
                assert(values[i] as nat >= power2::pow2((bits - 1) as nat));
            }
        },
    }
}

proof fn lemma_greatest(values: Seq<u64>)
    ensures
        forall|i: int| 0 <= i < values.len() ==> #[trigger] values[i] <= palette::greatest(values),
        palette::greatest(values) == 0 || values.contains(palette::greatest(values)),
    decreases values.len(),
{
    if values.len() > 0 {
        let rest = values.drop_last();
        lemma_greatest(rest);
        assert forall|i: int| 0 <= i < values.len() implies #[trigger] values[i]
            <= palette::greatest(values) by {
            if i < rest.len() {
                assert(rest[i] == values[i]);
            }
        }
        if rest.contains(palette::greatest(rest)) {
            let i = rest.index_of(palette::greatest(rest));
            assert(values[i] == palette::greatest(rest));
        }
        assert(values[values.len() - 1] == values.last());
    }
}

/// Between the number of solid blocks and the biome nothing is sent but one state, or the palette
/// and just as many words as the entries need, or just as many words as the states need.
pub proof fn sections_send_nothing_else(section: section::SectionView)
    requires
        section.well_formed(),
    ensures
        ({
            let bytes = section::section_wire(section);
            let end = bytes.len() - 1 - varint::wire_i32(section.biomes->Single_0 as i32).len();
            match section.shape {
                section::Shape::Single => end == sent::place_after(bytes, 3, 1),
                section::Shape::Indirect { bits, palette } => {
                    let first = sent::place_after(bytes, 3, 1);
                    let words = sent::place_after(bytes, first, palette.len());
                    &&& sent::number_at(bytes, 3) == palette.len()
                    &&& end == words + 8 * packing::word_count(4096, bytes[2])
                },
                section::Shape::Direct => end == 3 + 8 * packing::word_count(4096, 15),
            }
        }),
{
    sent::lemma_section_ends(section);
}

/// All blocks of a section can be read, each as it is.
pub proof fn blocks_read_as_they_are(section: section::SectionView, x: int, y: int, z: int)
    requires
        section.well_formed(),
        0 <= x < 16,
        0 <= y < 16,
        0 <= z < 16,
    ensures
        section.readable(section::block_index(x, y, z)),
        section.read(section::block_index(x, y, z)) == section.blocks[y * 256 + z * 16 + x],
{
    if let section::Shape::Indirect { bits, palette } = section.shape {
        packing::lemma_place(section::block_index(x, y, z), 4096, bits);
    }
}

} // verus!
