//! Chunks as they are sent: what a client that reads the bytes finds in them.
use vstd::arithmetic::power2;
use vstd::bits;
use vstd::prelude::*;

use crate::num;
use crate::serialize;
use crate::varint;
use crate::world::chunk;
use crate::world::packing;
use crate::world::palette;
use crate::world::section;

verus! {

/// The number that a client reads at a place.
pub open spec fn number_at(bytes: Seq<u8>, at: int) -> int {
    varint::low_bits(bytes.skip(at)) as int
}

/// The place after `n` numbers that stand one after the other.
pub open spec fn place_after(bytes: Seq<u8>, at: int, n: nat) -> int
    decreases n,
{
    if n == 0 {
        at
    } else {
        let last = place_after(bytes, at, (n - 1) as nat);
        last + varint::size(bytes.skip(last))
    }
}

/// The entry that a client reads out of packed words that start at a place: the words are eight
/// bytes each and hold as many whole entries as fit, the first in the lowest bits.
pub open spec fn packed_at(bytes: Seq<u8>, at: int, bits: int, i: int) -> int {
    let per_word = 64int / bits;
    let word = at + 8 * (i / per_word);
    (num::be_value(bytes.subrange(word, word + 8)) as int / power2::pow2(
        (bits * (i % per_word)) as nat,
    ) as int) % (power2::pow2(bits as nat) as int)
}

/// The block that a client finds at place `i` of a section that has one state or a palette: after
/// the number of blocks that are not air come the bits of an entry, then the state or the palette,
/// then the packed indices.
pub open spec fn client_block(bytes: Seq<u8>, i: int) -> int {
    let bits = bytes[2] as int;
    if bits == 0 {
        number_at(bytes, 3)
    } else {
        let first = place_after(bytes, 3, 1);
        let words = place_after(bytes, first, number_at(bytes, 3) as nat);
        number_at(bytes, place_after(bytes, first, packed_at(bytes, words, bits, i) as nat))
    }
}

proof fn lemma_each_prefix(items: Seq<varint::VarInt>, k: int)
    requires
        0 <= k <= items.len(),
    ensures
        serialize::each(items.take(k)).is_prefix_of(serialize::each(items)),
    decreases items.len(),
{
    if k == items.len() {
        assert(items.take(k) == items);
    } else {
        lemma_each_prefix(items.drop_last(), k);
        assert(items.drop_last().take(k) == items.take(k));
    }
}

proof fn lemma_numbers_read(
    front: Seq<u8>,
    items: Seq<varint::VarInt>,
    rest: Seq<u8>,
    k: int,
)
    requires
        0 <= k <= items.len(),
    ensures
        ({
            let bytes = front + serialize::each(items) + rest;
            let at = front.len() as int;
            &&& place_after(bytes, at, k as nat) == at + serialize::each(items.take(k)).len()
            &&& k < items.len() ==> number_at(bytes, place_after(bytes, at, k as nat))
                == items[k].0
        }),
    decreases k,
{
    let bytes = front + serialize::each(items) + rest;
    let at = front.len() as int;
    if k > 0 {
        lemma_numbers_read(front, items, rest, k - 1);
        lemma_number_placed(front, items, rest, k - 1);
    } else {
        assert(items.take(0).len() == 0);
    }
    if k < items.len() {
        lemma_number_placed(front, items, rest, k);
    }
}

proof fn lemma_number_placed(
    front: Seq<u8>,
    items: Seq<varint::VarInt>,
    rest: Seq<u8>,
    k: int,
)
    requires
        0 <= k < items.len(),
    ensures
        ({
            let bytes = front + serialize::each(items) + rest;
            let p = front.len() + serialize::each(items.take(k)).len();
            &&& varint::low_bits(bytes.skip(p as int)) == items[k].0
            &&& p + varint::size(bytes.skip(p as int)) == front.len() + serialize::each(
                items.take(k + 1),
            ).len()
        }),
{
    let bytes = front + serialize::each(items) + rest;
    let a = serialize::each(items.take(k));
    let w = varint::wire_i32(items[k].0);
    let p = (front.len() + a.len()) as int;
    assert(items.take(k + 1).drop_last() == items.take(k));
    assert(serialize::each(items.take(k + 1)) == a + w);
    lemma_each_prefix(items, k + 1);
    let tail = bytes.skip(p + w.len());
    assert forall|j: int| 0 <= j < w.len() implies #[trigger] bytes[p + j] == w[j] by {
        assert((a + w)[a.len() + j] == w[j]);
        assert(serialize::each(items).subrange(0, (a + w).len() as int)[a.len() + j] == w[j]);
    }
    assert(bytes.skip(p).len() == (w + tail).len());
    assert forall|j: int| 0 <= j < (w + tail).len() implies bytes.skip(p)[j] == #[trigger] (w
        + tail)[j] by {
        if j < w.len() {
            assert(bytes[p + j] == w[j]);
        }
    }
    assert(bytes.skip(p) =~= w + tail);
    varint::decode_inverts_encode(items[k].0, tail);
}

proof fn lemma_words_len(data: Seq<u64>)
    ensures
        palette::words_wire(data).len() == 8 * data.len(),
    decreases data.len(),
{
    if data.len() > 0 {
        lemma_words_len(data.drop_last());
        num::lemma_be_bytes_len(data.last() as nat, 8);
    }
}

/// Words are sent one after the other, eight bytes each, the highest first.
pub proof fn words_are_sent_in_order(data: Seq<u64>, w: int)
    requires
        0 <= w < data.len(),
    ensures
        palette::words_wire(data).len() == 8 * data.len(),
        num::be_value(palette::words_wire(data).subrange(8 * w, 8 * w + 8)) == data[w],
    decreases data.len(),
{
    lemma_words_len(data);
    lemma_words_len(data.drop_last());
    num::lemma_be_bytes_len(data.last() as nat, 8);
    let bytes = palette::words_wire(data);
    if w == data.len() - 1 {
        assert(bytes.subrange(8 * w, 8 * w + 8) =~= num::be_bytes(data[w] as nat, 8));
        num::lemma_pow256_values();
        num::be_round_trip(data[w] as nat, 8);
    } else {
        words_are_sent_in_order(data.drop_last(), w);
        assert(bytes.subrange(8 * w, 8 * w + 8) =~= palette::words_wire(
            data.drop_last(),
        ).subrange(8 * w, 8 * w + 8));
    }
}

/// An entry of packed words is a run of binary digits of its word, and no entry is split between
/// two words.
pub proof fn entries_are_runs_of_digits(data: Seq<u64>, i: int, bits: u8)
    requires
        1 <= bits <= 64,
        0 <= i,
    ensures
        ({
            let per_word = 64int / (bits as int);
            packing::entry(data, i, bits) as int == (data[i / per_word] as int / power2::pow2(
                (bits * (i % per_word)) as nat,
            ) as int) % (power2::pow2(bits as nat) as int)
        }),
{
    packing::lemma_place(i, i + 1, bits);
    let word = data[packing::word_index(i, bits)];
    let offset = packing::bit_offset(i, bits);
    let j = i % packing::per_word(bits);
    assert(j * bits == bits * j) by (nonlinear_arith);
    bits::lemma_u64_shr_is_div(word, offset);
    let shifted = word >> offset;
    let b = bits as u64;
    let m = packing::mask(bits);
    if bits == 64 {
        power2::lemma2_to64();
        assert(shifted & m == shifted) by (bit_vector)
            requires
                b == 64,
                m == 0xffff_ffff_ffff_ffffu64 >> ((64 - b) as u64),
        ;
    } else {
        assert(m == (1u64 << b) - 1) by (bit_vector)
            requires
                1 <= b < 64,
                m == 0xffff_ffff_ffff_ffffu64 >> ((64 - b) as u64),
        ;
        bits::lemma_u64_pow2_no_overflow(bits as nat);
        bits::lemma_u64_shl_is_mul(1, b);
        bits::lemma_u64_low_bits_mask_is_mod(shifted, bits as nat);
    }
}

/// A client that reads packed words finds every entry.
proof fn lemma_packed_read(front: Seq<u8>, data: Seq<u64>, rest: Seq<u8>, bits: u8, i: int)
    requires
        1 <= bits < 64,
        0 <= i,
        packing::word_index(i, bits) < data.len(),
    ensures
        packed_at(
            front + palette::words_wire(data) + rest,
            front.len() as int,
            bits as int,
            i,
        ) == packing::entry(data, i, bits),
{
    let per_word = 64int / (bits as int);
    let w = i / per_word;
    packing::lemma_per_word(bits);
    packing::lemma_place(i, i + 1, bits);
    words_are_sent_in_order(data, w);
    entries_are_runs_of_digits(data, i, bits);
    let bytes = front + palette::words_wire(data) + rest;
    let at = front.len() + 8 * w;
    assert(bytes.subrange(at, at + 8) =~= palette::words_wire(data).subrange(8 * w, 8 * w + 8));
}

proof fn lemma_narrow(palette: Seq<u16>, bits: u8)
    requires
        palette.no_duplicates(),
        palette.len() >= 1,
        bits == packing::bit_length((palette.len() - 1) as nat),
    ensures
        bits <= 16,
        palette.len() <= 0x1_0000,
{
    section::lemma_palette_bound(palette);
    packing::lemma_bit_length_grows((palette.len() - 1) as nat, 0xFFFF);
    assert(packing::bit_length(0xFFFF) == 16) by {
        reveal_with_fuel(packing::bit_length, 17);
    }
}

/// A client that reads a palette and packed indices finds the entry that an index stands for.
#[verifier::spinoff_prover]
#[verifier::rlimit(50)]
proof fn lemma_palette_read(
    solid: Seq<u8>,
    wire_bits: u8,
    entries: Seq<varint::VarInt>,
    sent: Seq<u64>,
    biomes: Seq<u8>,
    i: int,
)
    requires
        solid.len() == 2,
        4 <= wire_bits < 64,
        entries.len() <= 0x1_0000,
        0 <= i,
        packing::word_index(i, wire_bits) < sent.len(),
        packing::entry(sent, i, wire_bits) < entries.len(),
    ensures
        client_block(
            solid + palette::indirect_wire(wire_bits, entries, sent) + biomes,
            i,
        ) == entries[packing::entry(sent, i, wire_bits) as int].0,
{
    let bytes = solid + palette::indirect_wire(wire_bits, entries, sent) + biomes;
    let n = entries.len() as i32;
    let count = varint::wire_i32(n);
    let listed = serialize::each(entries);
    let words = palette::words_wire(sent);
    let front = solid + seq![wire_bits] + count;
    let e = packing::entry(sent, i, wire_bits);
    assert(num::signed32(n as int) == n);
    let split = front + listed + (words + biomes);
    assert(bytes =~= split);
    assert(bytes[2] == wire_bits);
    assert(number_at(bytes, 3) == n && place_after(bytes, 3, 1) == front.len()) by {
        reveal_with_fuel(place_after, 2);
        assert(bytes.skip(3) =~= count + (listed + words + biomes));
        varint::decode_inverts_encode(n, listed + words + biomes);
    }
    let at = (front.len() + listed.len()) as int;
    assert(place_after(bytes, front.len() as int, n as nat) == at) by {
        lemma_numbers_read(front, entries, words + biomes, n as int);
        assert(entries.take(n as int) == entries);
    }
    assert(packed_at(bytes, at, wire_bits as int, i) == e) by {
        assert(bytes =~= (front + listed) + words + biomes);
        lemma_packed_read(front + listed, sent, biomes, wire_bits, i);
    }
    assert(number_at(bytes, place_after(bytes, front.len() as int, e as nat)) == entries[e as int].0)
        by {
        lemma_numbers_read(front, entries, words + biomes, e as int);
    }
}

/// A client that reads a section as it is sent finds every block in its place.
pub proof fn client_reads_every_block(section: section::SectionView, i: int)
    requires
        section.well_formed(),
        !(section.shape is Direct),
        0 <= i < 4096,
    ensures
        client_block(section::section_wire(section), i) == section.blocks[i],
{
    let solid = num::be_bytes(section::solid_count(section.blocks), 2);
    let biomes = palette::biomes_wire(section.biomes);
    num::lemma_be_bytes_len(section::solid_count(section.blocks), 2);
    match section.shape {
        section::Shape::Single => {
            let bytes = section::section_wire(section);
            let v = section.blocks[0] as i32;
            assert(bytes[2] == 0);
            assert(bytes.skip(3) =~= varint::wire_i32(v) + biomes);
            varint::decode_inverts_encode(v, biomes);
            assert(section.blocks[i] == section.blocks[0]);
        },
        section::Shape::Indirect { bits, palette } => {
            let wire_bits: u8 = if bits < 4 {
                4
            } else {
                bits
            };
            let values = section::indices(section.blocks, palette);
            let sent = palette::block_wire_data(bits, packing::pack(values, bits));
            let entries = palette.map_values(|v: u16| varint::VarInt(v as i32));
            lemma_narrow(palette, bits);
            section::sent_indices_read_back(section, i);
            packing::lemma_place(i, 4096, wire_bits);
            lemma_palette_read(solid, wire_bits, entries, sent, biomes, i);
        },
        section::Shape::Direct => {},
    }
}

/// A client that reads a section whose states are sent themselves finds every block whose state
/// fits in fifteen bits: the packed states follow the number 15.
pub proof fn client_reads_every_state(section: section::SectionView, i: int)
    requires
        section.well_formed(),
        section.shape is Direct,
        0 <= i < 4096,
        section.blocks[i] < 0x8000,
    ensures
        section::section_wire(section)[2] == 15,
        packed_at(section::section_wire(section), 3, 15, i) == section.blocks[i],
{
    let solid = num::be_bytes(section::solid_count(section.blocks), 2);
    let biomes = palette::biomes_wire(section.biomes);
    let bytes = section::section_wire(section);
    let values = section.blocks.map_values(|v: u16| v as u64);
    let data = packing::pack(values, 15);
    let head = solid + seq![15u8];
    num::lemma_be_bytes_len(section::solid_count(section.blocks), 2);
    packing::lemma_place(i, 4096, 15);
    section::sent_states_read_back(section, i);
    assert(bytes =~= head + palette::words_wire(data) + biomes);
    lemma_packed_read(head, data, biomes, 15, i);
}

/// The place of a section's biome among its bytes: behind the one state, the words of the indices,
/// or the words of the states.
pub proof fn lemma_section_ends(section: section::SectionView)
    requires
        section.well_formed(),
    ensures
        ({
            let bytes = section::section_wire(section);
            let end = bytes.len() - 1 - varint::wire_i32(section.biomes->Single_0 as i32).len();
            match section.shape {
                section::Shape::Single => end == place_after(bytes, 3, 1),
                section::Shape::Indirect { bits, palette } => {
                    let first = place_after(bytes, 3, 1);
                    let words = place_after(bytes, first, palette.len());
                    &&& number_at(bytes, 3) == palette.len()
                    &&& end == words + 8 * packing::word_count(4096, bytes[2])
                },
                section::Shape::Direct => end == 3 + 8 * packing::word_count(4096, 15),
            }
        }),
{
    let bytes = section::section_wire(section);
    let solid = num::be_bytes(section::solid_count(section.blocks), 2);
    let biomes = palette::biomes_wire(section.biomes);
    num::lemma_be_bytes_len(section::solid_count(section.blocks), 2);
    match section.shape {
        section::Shape::Single => {
            let v = section.blocks[0] as i32;
            reveal_with_fuel(place_after, 2);
            assert(bytes.skip(3) =~= varint::wire_i32(v) + biomes);
            varint::decode_inverts_encode(v, biomes);
        },
        section::Shape::Indirect { bits, palette } => {
            let wire_bits: u8 = if bits < 4 {
                4
            } else {
                bits
            };
            let values = section::indices(section.blocks, palette);
            let sent = palette::block_wire_data(bits, packing::pack(values, bits));
            let entries = palette.map_values(|v: u16| varint::VarInt(v as i32));
            lemma_narrow(palette, bits);
            section::sent_indices_read_back(section, 0);
            lemma_words_len(sent);
            lemma_indirect_ends(solid, wire_bits, entries, sent, biomes);
        },
        section::Shape::Direct => {
            let values = section.blocks.map_values(|v: u16| v as u64);
            lemma_words_len(packing::pack(values, 15));
        },
    }
}

#[verifier::spinoff_prover]
#[verifier::rlimit(50)]
proof fn lemma_indirect_ends(
    solid: Seq<u8>,
    wire_bits: u8,
    entries: Seq<varint::VarInt>,
    sent: Seq<u64>,
    biomes: Seq<u8>,
)
    requires
        solid.len() == 2,
        entries.len() <= 0x1_0000,
    ensures
        ({
            let bytes = solid + palette::indirect_wire(wire_bits, entries, sent) + biomes;
            let first = place_after(bytes, 3, 1);
            let words = place_after(bytes, first, entries.len());
            &&& bytes[2] == wire_bits
            &&& number_at(bytes, 3) == entries.len()
            &&& bytes.len() == words + palette::words_wire(sent).len() + biomes.len()
        }),
{
    let bytes = solid + palette::indirect_wire(wire_bits, entries, sent) + biomes;
    let n = entries.len() as i32;
    let count = varint::wire_i32(n);
    let listed = serialize::each(entries);
    let words = palette::words_wire(sent);
    let front = solid + seq![wire_bits] + count;
    assert(num::signed32(n as int) == n);
    let split = front + listed + (words + biomes);
    assert(bytes =~= split);
    assert(number_at(bytes, 3) == n && place_after(bytes, 3, 1) == front.len()) by {
        reveal_with_fuel(place_after, 2);
        assert(bytes.skip(3) =~= count + (listed + words + biomes));
        varint::decode_inverts_encode(n, listed + words + biomes);
    }
    lemma_numbers_read(front, entries, words + biomes, n as int);
    assert(entries.take(n as int) == entries);
}

proof fn lemma_solid_is_filter(blocks: Seq<u16>)
    ensures
        section::solid_count(blocks) == blocks.filter(|b: u16| b != 0).len(),
        section::solid_count(blocks) <= blocks.len(),
    decreases blocks.len(),
{
    reveal(Seq::filter);
    if blocks.len() > 0 {
        lemma_solid_is_filter(blocks.drop_last());
    }
}

/// A section as it is sent starts with the number of its blocks that are not air, in two bytes,
/// and ends with its one biome.
pub proof fn sections_tell_solid_blocks_and_biome(section: section::SectionView)
    requires
        section.well_formed(),
    ensures
        ({
            let bytes = section::section_wire(section);
            let biome = section.biomes->Single_0 as i32;
            &&& bytes[0] * 256 + bytes[1] == section.blocks.filter(|b: u16| b != 0).len()
            &&& (seq![0u8] + varint::wire_i32(biome)).is_suffix_of(bytes)
        }),
{
    let solid = section::solid_count(section.blocks);
    lemma_solid_is_filter(section.blocks);
    num::lemma_be_bytes_len(solid, 2);
    reveal_with_fuel(num::be_bytes, 3);
}

/// How many bytes the first `k` sections take.
pub open spec fn bytes_before(sections: Seq<section::SectionView>, k: nat) -> nat
    decreases k,
{
    if k == 0 {
        0
    } else {
        bytes_before(sections, (k - 1) as nat) + section::section_wire(
            sections[k - 1],
        ).len()
    }
}

proof fn lemma_section_placed(sections: Seq<section::SectionView>, k: int)
    requires
        0 <= k < sections.len(),
    ensures
        ({
            let at = bytes_before(sections, k as nat) as int;
            let one = section::section_wire(sections[k]);
            let all = chunk::sections_wire(sections);
            &&& at + one.len() <= all.len()
            &&& all.subrange(at, at + one.len()) == one
        }),
        bytes_before(sections, sections.len()) == chunk::sections_wire(sections).len(),
    decreases sections.len(),
{
    let all = chunk::sections_wire(sections);
    let rest = sections.drop_last();
    lemma_before_same(sections, rest, rest.len());
    if rest.len() > 0 {
        lemma_section_placed(rest, if k < rest.len() {
            k
        } else {
            0
        });
    }
    if k < rest.len() {
        lemma_before_same(sections, rest, k as nat);
        let at = bytes_before(sections, k as nat) as int;
        let one = section::section_wire(sections[k]);
        assert(all.subrange(at, at + one.len()) =~= chunk::sections_wire(rest).subrange(
            at,
            at + one.len(),
        ));
    } else {
        let at = bytes_before(sections, k as nat) as int;
        let one = section::section_wire(sections[k]);
        assert(all.subrange(at, at + one.len()) =~= one);
    }
}

proof fn lemma_before_same(
    sections: Seq<section::SectionView>,
    other: Seq<section::SectionView>,
    k: nat,
)
    requires
        k <= sections.len(),
        k <= other.len(),
        forall|j: int| 0 <= j < k ==> sections[j] == #[trigger] other[j],
    ensures
        bytes_before(sections, k) == bytes_before(other, k),
    decreases k,
{
    if k > 0 {
        lemma_before_same(sections, other, (k - 1) as nat);
        assert(sections[k - 1] == other[k - 1]);
    }
}

/// Section `k` of a chunk as it is sent, counted from the first one.
pub open spec fn sent_section(chunk: chunk::ChunkView, x: i32, z: i32, k: int) -> Seq<u8> {
    let bytes = chunk::chunk_wire(chunk, x, z);
    let at = place_after(bytes, 9, 1) + bytes_before(chunk.sections, k as nat);
    bytes.subrange(at, at + section::section_wire(chunk.sections[k]).len())
}

/// A chunk as it is sent starts with its coordinates, of four bytes each, and no height maps. Then
/// come the length of its sections and the sections themselves, the lowest first, then no block
/// entities, then the light.
pub proof fn sections_are_sent_in_order(chunk: chunk::ChunkView, x: i32, z: i32, k: int)
    requires
        chunk.well_formed(),
        0 <= k < 24,
    ensures
        ({
            let bytes = chunk::chunk_wire(chunk, x, z);
            let first = place_after(bytes, 9, 1);
            let length = bytes_before(chunk.sections, 24);
            &&& (num::be_value(bytes.take(4)) - x) % 0x1_0000_0000 == 0
            &&& (num::be_value(bytes.subrange(4, 8)) - z) % 0x1_0000_0000 == 0
            &&& bytes[8] == 0
            &&& number_at(bytes, 9) == length
            &&& first + length < bytes.len()
            &&& bytes[first + length] == 0
            &&& bytes.skip(first + length + 1) == chunk::light_wire(chunk)
            &&& sent_section(chunk, x, z, k) == section::section_wire(chunk.sections[k])
        }),
{
    let (a, b) = (
        num::be_bytes(num::twos32(x as int), 4),
        num::be_bytes(num::twos32(z as int), 4),
    );
    num::lemma_pow256_values();
    num::be_round_trip(num::twos32(x as int), 4);
    num::be_round_trip(num::twos32(z as int), 4);
    let all = chunk::sections_wire(chunk.sections);
    chunk::chunk_fits_in_packet(chunk, x, z);
    lemma_section_placed(chunk.sections, k);
    let none = serialize::count(0);
    assert(none =~= seq![0u8]) by {
        reveal_with_fuel(varint::wire, 2);
    }
    lemma_parts_placed(
        a,
        b,
        all,
        chunk::light_wire(chunk),
        bytes_before(chunk.sections, k as nat) as int,
        section::section_wire(chunk.sections[k]).len() as int,
    );
}

#[verifier::spinoff_prover]
#[verifier::rlimit(50)]
proof fn lemma_parts_placed(
    a: Seq<u8>,
    b: Seq<u8>,
    all: Seq<u8>,
    light: Seq<u8>,
    at: int,
    len: int,
)
    requires
        a.len() == 4,
        b.len() == 4,
        all.len() <= i32::MAX,
        0 <= at,
        0 <= len,
        at + len <= all.len(),
    ensures
        ({
            let bytes = a + b + seq![0u8] + serialize::count(all.len()) + all + seq![0u8] + light;
            let first = place_after(bytes, 9, 1);
            &&& bytes.take(4) == a
            &&& bytes.subrange(4, 8) == b
            &&& bytes[8] == 0
            &&& number_at(bytes, 9) == all.len()
            &&& first + all.len() < bytes.len()
            &&& bytes[first + all.len()] == 0
            &&& bytes.skip(first + all.len() + 1) == light
            &&& bytes.subrange(first + at, first + at + len) == all.subrange(at, at + len)
        }),
{
    let bytes = a + b + seq![0u8] + serialize::count(all.len()) + all + seq![0u8] + light;
    let n = all.len() as i32;
    let count = varint::wire_i32(n);
    assert(serialize::count(all.len()) == count);
    let tail = all + seq![0u8] + light;
    let head = a + b + seq![0u8];
    assert(bytes =~= head + (count + tail));
    assert(bytes.take(4) =~= a);
    assert(bytes.subrange(4, 8) =~= b);
    assert(number_at(bytes, 9) == n && place_after(bytes, 9, 1) == 9 + count.len()) by {
        reveal_with_fuel(place_after, 2);
        assert(bytes.skip(9) =~= count + tail);
        varint::decode_inverts_encode(n, tail);
    }
    let first = 9 + count.len();
    let front = head + count;
    assert(bytes =~= front + tail);
    assert(bytes.subrange(first + at, first + at + len) =~= all.subrange(at, at + len));
    assert(bytes.skip((first + all.len() + 1) as int) =~= light);
}

/// After a block was placed in a chunk, a client that is sent the chunk finds it in the section of
/// its height, at the place of its coordinates. Every other section is sent as before, and in that
/// section every other block reads as before.
pub proof fn placed_block_is_sent(
    chunk: chunk::ChunkView,
    x: int,
    y: int,
    z: int,
    state: u16,
    cx: i32,
    cz: i32,
    k: int,
    i: int,
)
    requires
        chunk.well_formed(),
        0 <= x < 16,
        -64 <= y < 320,
        0 <= z < 16,
        0 <= k < 24,
        0 <= i < 4096,
        !(chunk.sections[(y + 64) / 16].shape is Direct),
    ensures
        ({
            let after = chunk.with_block(x, y, z, state);
            let s = (y + 64) / 16;
            if k != s {
                sent_section(after, cx, cz, k) == sent_section(chunk, cx, cz, k)
            } else {
                client_block(sent_section(after, cx, cz, k), i) == if i == ((y + 64) % 16) * 256 + z
                    * 16 + x {
                    state as int
                } else {
                    client_block(sent_section(chunk, cx, cz, k), i)
                }
            }
        }),
{
    let after = chunk.with_block(x, y, z, state);
    let s = (y + 64) / 16;
    let at = ((y + 64) % 16) * 256 + z * 16 + x;
    assert(chunk.sections[s].well_formed());
    section::with_block_is_well_formed(chunk.sections[s], at, state);
    assert(after.well_formed());
    sections_are_sent_in_order(chunk, cx, cz, k);
    sections_are_sent_in_order(after, cx, cz, k);
    if k == s {
        client_reads_every_block(chunk.sections[s], i);
        client_reads_every_block(after.sections[s], i);
    }
}

} // verus!
