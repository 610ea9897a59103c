//! Chunks: columns of twenty-four sections with their light.
use vstd::arithmetic::power2;
use vstd::bits;
use vstd::prelude::*;

use crate::num;
use crate::serialize;
use crate::serialize::Serialize;
use crate::varint;
use crate::world::packing;
use crate::world::palette;
use crate::world::section;
use crate::world::section::ChunkSection;

verus! {

/// The light of a section, two values to a byte.
#[derive(Debug)]
pub enum LightSection {
    /// The same light everywhere, a value under 16.
    Single(u8),
    /// The bytes themselves.
    Direct(Box<[u8; 2048]>),
}

/// The number of sections in a chunk.
pub const SECTION_COUNT: usize = 24;

/// The number of light sections: one below and one above the sections of the chunk too.
pub const LIGHT_SECTION_COUNT: usize = 26;

/// A bit for each light section.
pub const LIGHT_SECTION_MASK: u64 = 0x3FF_FFFF;

/// The lowest layer of a chunk.
pub const MIN_Y: i32 = -64;

/// The layer above the highest one.
pub const MAX_Y: i32 = 320;

/// Whether a light section is dark throughout: it is not sent.
pub open spec fn dark(light: LightSection) -> bool {
    light matches LightSection::Single(n) && n == 0
}

/// The bytes of a light section. A value that is the same everywhere fills both halves of each.
pub open spec fn light_bytes(light: LightSection) -> Seq<u8> {
    match light {
        LightSection::Single(n) => Seq::new(2048, |i: int| (n * 17) as u8),
        LightSection::Direct(bytes) => bytes@,
    }
}

/// Light that is the same everywhere has a value under 16.
pub open spec fn light_valid(light: LightSection) -> bool {
    light matches LightSection::Single(n) ==> n < 16
}

/// The number whose binary digit `i` is 1 if `digits[i]` holds.
pub open spec fn binary(digits: Seq<bool>) -> nat
    decreases digits.len(),
{
    if digits.len() == 0 {
        0
    } else {
        binary(digits.drop_last()) + if digits.last() {
            power2::pow2((digits.len() - 1) as nat)
        } else {
            0
        }
    }
}

/// A bit for each light section that is sent.
pub open spec fn lit_mask(light: Seq<LightSection>) -> nat {
    binary(light.map_values(|l: LightSection| !dark(l)))
}

/// A bit for each light section that is dark.
pub open spec fn dark_mask(light: Seq<LightSection>) -> nat {
    binary(light.map_values(|l: LightSection| dark(l)))
}

/// A set of bits: the number of its words, which is 0 if there is no bit, then the word.
pub open spec fn bitset(mask: nat) -> Seq<u8> {
    if mask == 0 {
        varint::wire_i32(0)
    } else {
        varint::wire_i32(1) + num::be_bytes(mask, 8)
    }
}

/// How many light sections are sent.
pub open spec fn lit_count(light: Seq<LightSection>) -> nat
    decreases light.len(),
{
    if light.len() == 0 {
        0
    } else {
        lit_count(light.drop_last()) + if dark(light.last()) {
            0nat
        } else {
            1
        }
    }
}

/// The light sections that are sent, each with its length.
pub open spec fn lit_bytes(light: Seq<LightSection>) -> Seq<u8>
    decreases light.len(),
{
    if light.len() == 0 {
        Seq::empty()
    } else if dark(light.last()) {
        lit_bytes(light.drop_last())
    } else {
        lit_bytes(light.drop_last()) + varint::wire_i32(2048) + light_bytes(light.last())
    }
}

/// The number of light sections that are sent, then those sections.
pub open spec fn lights(light: Seq<LightSection>) -> Seq<u8> {
    serialize::count(lit_count(light)) + lit_bytes(light)
}

/// The wire forms of the sections, one after the other.
pub open spec fn sections_wire(sections: Seq<section::SectionView>) -> Seq<u8>
    decreases sections.len(),
{
    if sections.len() == 0 {
        Seq::empty()
    } else {
        sections_wire(sections.drop_last()) + section::section_wire(sections.last())
    }
}

/// The sections of a chunk from the lowest up, and its light.
#[verifier::ext_equal]
pub struct ChunkView {
    pub sections: Seq<section::SectionView>,
    pub skylight: Seq<LightSection>,
    pub blocklight: Seq<LightSection>,
}

/// The lowest layer of section `s`.
pub open spec fn section_base(s: int) -> int {
    MIN_Y + 16 * s
}

impl ChunkView {
    /// A chunk has all its sections and all its light, and each is sound.
    pub open spec fn well_formed(self) -> bool {
        &&& self.sections.len() == SECTION_COUNT
        &&& self.skylight.len() == LIGHT_SECTION_COUNT
        &&& self.blocklight.len() == LIGHT_SECTION_COUNT
        &&& forall|s: int| 0 <= s < SECTION_COUNT ==> (#[trigger] self.sections[s]).well_formed()
        &&& forall|l: int|
            0 <= l < LIGHT_SECTION_COUNT ==> light_valid(#[trigger] self.skylight[l])
        &&& forall|l: int|
            0 <= l < LIGHT_SECTION_COUNT ==> light_valid(#[trigger] self.blocklight[l])
    }

    /// Whether a place is within the chunk.
    pub open spec fn holds(self, x: int, y: int, z: int) -> bool {
        0 <= x < 16 && MIN_Y <= y < MAX_Y && 0 <= z < 16
    }

    /// The block at a place within the chunk.
    pub open spec fn block(self, x: int, y: int, z: int) -> u16 {
        self.sections[(y - MIN_Y) / 16].blocks[section::block_index(x, (y - MIN_Y) % 16, z)]
    }

    /// The chunk with the block at the given place replaced, if the place is within it.
    pub open spec fn with_block(self, x: int, y: int, z: int, state: u16) -> ChunkView {
        if self.holds(x, y, z) {
            let s = (y - MIN_Y) / 16;
            ChunkView {
                sections: self.sections.update(
                    s,
                    self.sections[s].with_block(
                        section::block_index(x, (y - MIN_Y) % 16, z),
                        state,
                    ),
                ),
                ..self
            }
        } else {
            self
        }
    }

    /// The chunk with all blocks in the box replaced.
    pub open spec fn filled(self, cuboid: section::Cuboid, state: u16) -> ChunkView {
        ChunkView {
            sections: Seq::new(
                self.sections.len(),
                |s: int| section::filled(self.sections[s], cuboid, section_base(s), state),
            ),
            ..self
        }
    }
}

/// A chunk of air in the dark.
pub open spec fn empty_chunk() -> ChunkView {
    ChunkView {
        sections: Seq::new(
            SECTION_COUNT as nat,
            |s: int| section::uniform(0, palette::ContainerView::Single(0)),
        ),
        skylight: Seq::new(LIGHT_SECTION_COUNT as nat, |l: int| LightSection::Single(0)),
        blocklight: Seq::new(LIGHT_SECTION_COUNT as nat, |l: int| LightSection::Single(0)),
    }
}

/// The wire form of a chunk at chunk coordinates `x` and `z`: the coordinates, no height maps, the
/// sections in a byte string, no block entities, and the light.
pub open spec fn chunk_wire(chunk: ChunkView, x: i32, z: i32) -> Seq<u8> {
    num::be_bytes(num::twos32(x as int), 4) + num::be_bytes(num::twos32(z as int), 4)
        + serialize::count(0) + serialize::count(sections_wire(chunk.sections).len())
        + sections_wire(chunk.sections) + serialize::count(0) + light_wire(chunk)
}

/// The wire form of the light: a bit set of what is sent of sky and block light, one of what is
/// dark of each, and what is sent of each.
pub open spec fn light_wire(chunk: ChunkView) -> Seq<u8> {
    bitset(lit_mask(chunk.skylight)) + bitset(lit_mask(chunk.blocklight)) + bitset(
        dark_mask(chunk.skylight),
    ) + bitset(dark_mask(chunk.blocklight)) + lights(chunk.skylight) + lights(chunk.blocklight)
}

proof fn lemma_binary_bound(digits: Seq<bool>)
    ensures
        binary(digits) < power2::pow2(digits.len()),
    decreases digits.len(),
{
    if digits.len() == 0 {
        power2::lemma2_to64();
    } else {
        lemma_binary_bound(digits.drop_last());
        power2::lemma_pow2_unfold(digits.len());
    }
}

/// The digits and the opposite digits add up to all ones.
proof fn lemma_binary_complement(digits: Seq<bool>, opposite: Seq<bool>)
    requires
        digits.len() == opposite.len(),
        forall|i: int| 0 <= i < digits.len() ==> digits[i] != opposite[i],
    ensures
        binary(digits) + binary(opposite) == power2::pow2(digits.len()) - 1,
    decreases digits.len(),
{
    if digits.len() == 0 {
        power2::lemma2_to64();
    } else {
        lemma_binary_complement(digits.drop_last(), opposite.drop_last());
        power2::lemma_pow2_unfold(digits.len());
    }
}

/// Every light section of a chunk is announced exactly once: as sent or as dark.
pub proof fn light_is_announced_once(light: Seq<LightSection>)
    requires
        light.len() == LIGHT_SECTION_COUNT,
    ensures
        lit_mask(light) + dark_mask(light) == LIGHT_SECTION_MASK,
        lit_mask(light) as u64 ^ LIGHT_SECTION_MASK == dark_mask(light) as u64,
{
    let lit = light.map_values(|l: LightSection| !dark(l));
    let unlit = light.map_values(|l: LightSection| dark(l));
    lemma_binary_complement(lit, unlit);
    power2::lemma2_to64();
    let mask = lit_mask(light) as u64;
    assert(mask ^ 0x3FF_FFFF == 0x3FF_FFFF - mask) by (bit_vector)
        requires
            mask <= 0x3FF_FFFF,
    ;
}

proof fn lemma_lit_bytes_bound(light: Seq<LightSection>)
    ensures
        lit_count(light) <= light.len(),
        lit_bytes(light).len() <= 2053 * lit_count(light),
    decreases light.len(),
{
    if light.len() > 0 {
        lemma_lit_bytes_bound(light.drop_last());
        varint::wire_i32_len(2048);
        match light.last() {
            LightSection::Single(n) => {},
            LightSection::Direct(bytes) => {
                assert(bytes@.len() == 2048);
            },
        }
    }
}

proof fn lemma_words_len(data: Seq<u64>)
    ensures
        palette::words_wire(data).len() == 8 * data.len(),
    decreases data.len(),
{
    if data.len() > 0 {
        lemma_words_len(data.drop_last());
        num::lemma_be_bytes_len(data.last() as nat, 8);
    }
}

proof fn lemma_each_len(items: Seq<varint::VarInt>)
    ensures
        serialize::each(items).len() <= varint::MAX_LEN * items.len(),
    decreases items.len(),
{
    if items.len() > 0 {
        lemma_each_len(items.drop_last());
        varint::wire_i32_len(items.last().0);
    }
}

/// The most bytes that a section takes.
pub open spec fn section_limit() -> nat {
    400_000
}

proof fn lemma_section_len(section: section::SectionView)
    requires
        section.well_formed(),
    ensures
        section::section_wire(section).len() <= section_limit(),
{
    num::lemma_be_bytes_len(section::solid_count(section.blocks), 2);
    varint::wire_i32_len(section.biomes->Single_0 as i32);
    match section.shape {
        section::Shape::Single => {
            varint::wire_i32_len(section.blocks[0] as i32);
        },
        section::Shape::Indirect { bits, palette } => {
            let data = packing::pack(section::indices(section.blocks, palette), bits);
            let entries = palette.map_values(|v: u16| varint::VarInt(v as i32));
            section::lemma_palette_bound(palette);
            lemma_each_len(entries);
            varint::wire_i32_len(num::signed32(palette.len() as int));
            packing::lemma_word_count_bounds(4096, bits);
            packing::lemma_word_count_bounds(4096, 4);
            lemma_words_len(palette::block_wire_data(bits, data));
        },
        section::Shape::Direct => {
            let values = section.blocks.map_values(|v: u16| v as u64);
            packing::lemma_word_count_bounds(4096, 15);
            lemma_words_len(packing::pack(values, 15));
        },
    }
}

proof fn lemma_sections_len(sections: Seq<section::SectionView>)
    requires
        forall|s: int| 0 <= s < sections.len() ==> (#[trigger] sections[s]).well_formed(),
    ensures
        sections_wire(sections).len() <= section_limit() * sections.len(),
    decreases sections.len(),
{
    if sections.len() > 0 {
        lemma_sections_len(sections.drop_last());
        lemma_section_len(sections.last());
    }
}

/// A chunk always fits in a packet: neither the byte string of its sections nor the whole is
/// longer than a length field can say.
pub proof fn chunk_fits_in_packet(chunk: ChunkView, x: i32, z: i32)
    requires
        chunk.well_formed(),
    ensures
        sections_wire(chunk.sections).len() <= 9_600_000,
        chunk_wire(chunk, x, z).len() <= 10_000_000,
{
    lemma_sections_len(chunk.sections);
    num::lemma_be_bytes_len(num::twos32(x as int), 4);
    num::lemma_be_bytes_len(num::twos32(z as int), 4);
    varint::wire_i32_len(num::signed32(0));
    varint::wire_i32_len(num::signed32(sections_wire(chunk.sections).len() as int));
    varint::wire_i32_len(0);
    varint::wire_i32_len(1);
    lemma_light_len(chunk.skylight);
    lemma_light_len(chunk.blocklight);
}

proof fn lemma_light_len(light: Seq<LightSection>)
    requires
        light.len() == LIGHT_SECTION_COUNT,
    ensures
        bitset(lit_mask(light)).len() <= 8 + varint::MAX_LEN,
        bitset(dark_mask(light)).len() <= 8 + varint::MAX_LEN,
        lights(light).len() <= 60_000,
{
    num::lemma_be_bytes_len(lit_mask(light), 8);
    num::lemma_be_bytes_len(dark_mask(light), 8);
    varint::wire_i32_len(0);
    varint::wire_i32_len(1);
    varint::wire_i32_len(num::signed32(lit_count(light) as int));
    lemma_lit_bytes_bound(light);
}

/// A block that was just placed in a chunk is read back, and every other block reads as before.
pub proof fn place_then_read(
    chunk: ChunkView,
    x: int,
    y: int,
    z: int,
    state: u16,
    a: int,
    b: int,
    c: int,
)
    requires
        chunk.well_formed(),
        chunk.holds(x, y, z),
        chunk.holds(a, b, c),
    ensures
        chunk.with_block(x, y, z, state).block(a, b, c) == if (a, b, c) == (x, y, z) {
            state
        } else {
            chunk.block(a, b, c)
        },
{
}

/// After a box was filled, exactly the blocks in it have the new state; the others read as before.
pub proof fn fill_then_read(
    chunk: ChunkView,
    cuboid: section::Cuboid,
    state: u16,
    x: int,
    y: int,
    z: int,
)
    requires
        chunk.well_formed(),
        chunk.holds(x, y, z),
    ensures
        chunk.filled(cuboid, state).block(x, y, z) == if cuboid.holds(x, y, z) {
            state
        } else {
            chunk.block(x, y, z)
        },
{
    let s = (y - MIN_Y) / 16;
    let i = section::block_index(x, (y - MIN_Y) % 16, z);
    assert(chunk.sections[s].well_formed());
    assert(i % 16 == x && i / 256 == (y - MIN_Y) % 16 && (i / 16) % 16 == z);
    assert(section_base(s) + i / 256 == y);
}

/// The chunk with the blocks in the box before `(x, y, z)` replaced.
spec fn filled_before(
    chunk: ChunkView,
    cuboid: section::Cuboid,
    state: u16,
    x: int,
    y: int,
    z: int,
) -> ChunkView {
    ChunkView {
        sections: Seq::new(
            chunk.sections.len(),
            |s: int|
                section::filled_before(
                    chunk.sections[s],
                    cuboid,
                    section_base(s),
                    state,
                    x,
                    y,
                    z,
                ),
        ),
        ..chunk
    }
}

proof fn lemma_fill_start(chunk: ChunkView, cuboid: section::Cuboid, state: u16)
    requires
        chunk.well_formed(),
    ensures
        filled_before(chunk, cuboid, state, cuboid.x1, cuboid.y1, cuboid.z1) == chunk,
{
    let start = filled_before(chunk, cuboid, state, cuboid.x1, cuboid.y1, cuboid.z1);
    assert forall|s: int| 0 <= s < chunk.sections.len() implies #[trigger] start.sections[s]
        == chunk.sections[s] by {
        section::lemma_fill_start(chunk.sections[s], cuboid, section_base(s), state);
    }
    assert(start.sections =~= chunk.sections);
}

proof fn lemma_fill_cell(
    chunk: ChunkView,
    cuboid: section::Cuboid,
    state: u16,
    x: int,
    y: int,
    z: int,
)
    requires
        chunk.well_formed(),
        cuboid.holds(x, y, z),
        cuboid.x1 >= 0,
        cuboid.z1 >= 0,
    ensures
        filled_before(chunk, cuboid, state, x, y, z + 1) == filled_before(
            chunk,
            cuboid,
            state,
            x,
            y,
            z,
        ).with_block(x, y, z, state),
{
    let before = filled_before(chunk, cuboid, state, x, y, z);
    let after = filled_before(chunk, cuboid, state, x, y, z + 1);
    assert forall|s: int| 0 <= s < chunk.sections.len() implies #[trigger] after.sections[s]
        == before.with_block(x, y, z, state).sections[s] by {
        section::lemma_fill_cell(chunk.sections[s], cuboid, section_base(s), state, x, y, z);
    }
    assert(after.sections =~= before.with_block(x, y, z, state).sections);
}

proof fn lemma_fill_row(
    chunk: ChunkView,
    cuboid: section::Cuboid,
    state: u16,
    x: int,
    y: int,
    z: int,
)
    requires
        chunk.well_formed(),
        z >= cuboid.z2,
    ensures
        filled_before(chunk, cuboid, state, x, y, z) == filled_before(
            chunk,
            cuboid,
            state,
            x,
            y + 1,
            cuboid.z1,
        ),
{
    let one = filled_before(chunk, cuboid, state, x, y, z);
    let other = filled_before(chunk, cuboid, state, x, y + 1, cuboid.z1);
    assert forall|s: int| 0 <= s < chunk.sections.len() implies #[trigger] one.sections[s]
        == other.sections[s] by {
        section::lemma_fill_row(chunk.sections[s], cuboid, section_base(s), state, x, y, z);
    }
    assert(one.sections =~= other.sections);
}

proof fn lemma_fill_slice(
    chunk: ChunkView,
    cuboid: section::Cuboid,
    state: u16,
    x: int,
    y: int,
)
    requires
        chunk.well_formed(),
        y >= cuboid.y2,
    ensures
        filled_before(chunk, cuboid, state, x, y, cuboid.z1) == filled_before(
            chunk,
            cuboid,
            state,
            x + 1,
            cuboid.y1,
            cuboid.z1,
        ),
{
    let one = filled_before(chunk, cuboid, state, x, y, cuboid.z1);
    let other = filled_before(chunk, cuboid, state, x + 1, cuboid.y1, cuboid.z1);
    assert forall|s: int| 0 <= s < chunk.sections.len() implies #[trigger] one.sections[s]
        == other.sections[s] by {
        section::lemma_fill_slice(chunk.sections[s], cuboid, section_base(s), state, x, y);
    }
    assert(one.sections =~= other.sections);
}

proof fn lemma_fill_end(chunk: ChunkView, cuboid: section::Cuboid, state: u16, x: int)
    requires
        chunk.well_formed(),
        x >= cuboid.x2,
    ensures
        filled_before(chunk, cuboid, state, x, cuboid.y1, cuboid.z1) == chunk.filled(cuboid, state),
{
    let one = filled_before(chunk, cuboid, state, x, cuboid.y1, cuboid.z1);
    let other = chunk.filled(cuboid, state);
    assert forall|s: int| 0 <= s < chunk.sections.len() implies #[trigger] one.sections[s]
        == other.sections[s] by {
        section::lemma_fill_end(chunk.sections[s], cuboid, section_base(s), state, x);
    }
    assert(one.sections =~= other.sections);
}

/// A table of the light sections that are the same everywhere.
pub fn generate_arrays() -> (out: [[u8; 2048]; 16])
    ensures
        forall|v: int|
            0 <= v < 16 ==> (#[trigger] out@[v])@ == light_bytes(LightSection::Single(v as u8)),
{
    let mut out: [[u8; 2048]; 16] = [[0u8; 2048]; 16];
    let mut v: usize = 0;
    while v < 16
        invariant
            v <= 16,
            forall|k: int|
                0 <= k < v ==> (#[trigger] out@[k])@ == light_bytes(LightSection::Single(k as u8)),
        decreases 16 - v,
    {
        let n: u8 = v as u8;
        assert((n << 4u8) | n == n * 17) by (bit_vector)
            requires
                n < 16,
        ;
        let value: u8 = (n << 4u8) | n;
        out[v] = [value; 2048];
        assert(out@[v as int]@ =~= light_bytes(LightSection::Single(v as u8)));
        v += 1;
    }
    out
}

impl LightSection {
    /// Darkness.
    pub fn new() -> (r: Self)
        ensures
            r == LightSection::Single(0),
    {
        LightSection::Single(0)
    }

    /// Whether the section is dark throughout.
    fn is_dark(&self) -> (r: bool)
        ensures
            r == dark(*self),
    {
        match self {
            LightSection::Single(n) => *n == 0,
            LightSection::Direct(_) => false,
        }
    }

    /// Appends the bytes of the light section.
    pub fn write_to(&self, to: &mut Vec<u8>)
        requires
            light_valid(*self),
        ensures
            final(to)@ == old(to)@ + light_bytes(*self),
    {
        match self {
            LightSection::Single(n) => {
                let table = generate_arrays();
                assert(table@[*n as int]@ == light_bytes(LightSection::Single(*n)));
                serialize::push_bytes(to, table[*n as usize].as_slice());
            },
            LightSection::Direct(bytes) => {
                serialize::push_bytes(to, bytes.as_slice());
            },
        }
    }
}

/// A column of the world, sixteen by sixteen blocks.
#[derive(Debug)]
pub struct LevelChunk {
    sections: [ChunkSection; 24],
    skylight: [LightSection; 26],
    blocklight: [LightSection; 26],
}

impl View for LevelChunk {
    type V = ChunkView;

    closed spec fn view(&self) -> ChunkView {
        ChunkView {
            sections: self.sections@.map_values(|s: ChunkSection| s@),
            skylight: self.skylight@,
            blocklight: self.blocklight@,
        }
    }
}

/// The box between two corners within a chunk.
pub open spec fn chunk_cuboid(from: (u8, i32, u8), to: (u8, i32, u8)) -> section::Cuboid {
    section::Cuboid {
        x1: from.0 as int,
        y1: from.1 as int,
        z1: from.2 as int,
        x2: to.0 as int,
        y2: to.1 as int,
        z2: to.2 as int,
    }
}

impl LevelChunk {
    /// Every section of the chunk is sound, and so is its light.
    pub closed spec fn wf(&self) -> bool {
        &&& self@.well_formed()
        &&& forall|s: int| 0 <= s < SECTION_COUNT ==> (#[trigger] self.sections@[s]).wf()
    }

    /// What `wf` says of the blocks and the light.
    pub proof fn lemma_well_formed(&self)
        requires
            self.wf(),
        ensures
            self@.well_formed(),
    {
    }

    /// A chunk of air in the dark.
    pub fn new() -> (r: Self)
        ensures
            r.wf(),
            r@ == empty_chunk(),
    {
        let r = LevelChunk {
            sections: [
                ChunkSection::new(), ChunkSection::new(), ChunkSection::new(), ChunkSection::new(),
                ChunkSection::new(), ChunkSection::new(), ChunkSection::new(), ChunkSection::new(),
                ChunkSection::new(), ChunkSection::new(), ChunkSection::new(), ChunkSection::new(),
                ChunkSection::new(), ChunkSection::new(), ChunkSection::new(), ChunkSection::new(),
                ChunkSection::new(), ChunkSection::new(), ChunkSection::new(), ChunkSection::new(),
                ChunkSection::new(), ChunkSection::new(), ChunkSection::new(), ChunkSection::new(),
            ],
            skylight: Self::darkness(),
            blocklight: Self::darkness(),
        };
        assert(r@ =~= empty_chunk());
        r
    }

    /// Light sections that are all dark.
    fn darkness() -> (r: [LightSection; 26])
        ensures
            forall|l: int| 0 <= l < 26 ==> r@[l] == LightSection::Single(0),
    {
        [
            LightSection::new(), LightSection::new(), LightSection::new(), LightSection::new(),
            LightSection::new(), LightSection::new(), LightSection::new(), LightSection::new(),
            LightSection::new(), LightSection::new(), LightSection::new(), LightSection::new(),
            LightSection::new(), LightSection::new(), LightSection::new(), LightSection::new(),
            LightSection::new(), LightSection::new(), LightSection::new(), LightSection::new(),
            LightSection::new(), LightSection::new(), LightSection::new(), LightSection::new(),
            LightSection::new(), LightSection::new(),
        ]
    }

    /// Replaces the block at the given place; one that is outside of the chunk is ignored.
    pub fn set_block(&mut self, x: u8, y: i32, z: u8, block_state: u16)
        requires
            old(self).wf(),
        ensures
            final(self).wf(),
            final(self)@ == old(self)@.with_block(x as int, y as int, z as int, block_state),
    {
        if y >= MAX_Y || y < MIN_Y {
            return ;
        }
        let section_index: usize = ((y - MIN_Y) / 16) as usize;
        let section_y: u8 = ((y - MIN_Y) % 16) as u8;
        self.sections[section_index].set_block(x, section_y, z, block_state);
        proof {
            self.sections@[section_index as int].lemma_parts();
            assert(self@ =~= old(self)@.with_block(x as int, y as int, z as int, block_state));
        }
    }

    /// Replaces all blocks of a box whose second corner is outside of it; what is outside of the
    /// chunk is ignored.
    pub fn fill(&mut self, from: (u8, i32, u8), to: (u8, i32, u8), block_state: u16)
        requires
            old(self).wf(),
        ensures
            final(self).wf(),
            final(self)@ == old(self)@.filled(chunk_cuboid(from, to), block_state),
    {
        let (x1, y1, z1) = from;
        let (x2, y2, z2) = to;
        let ghost before = self@;
        let ghost cuboid = chunk_cuboid(from, to);
        proof {
            lemma_fill_start(before, cuboid, block_state);
        }
        let mut x: u8 = x1;
        while x < x2
            invariant
                (x1, y1, z1) == from,
                (x2, y2, z2) == to,
                cuboid == chunk_cuboid(from, to),
                before.well_formed(),
                x1 <= x,
                self.wf(),
                self@ == filled_before(before, cuboid, block_state, x as int, y1 as int, z1 as int),
            decreases x2 - x,
        {
            let mut y: i32 = y1;
            while y < y2
                invariant
                    (x1, y1, z1) == from,
                    (x2, y2, z2) == to,
                    cuboid == chunk_cuboid(from, to),
                    before.well_formed(),
                    x1 <= x < x2,
                    y1 <= y,
                    self.wf(),
                    self@ == filled_before(
                        before,
                        cuboid,
                        block_state,
                        x as int,
                        y as int,
                        z1 as int,
                    ),
                decreases y2 - y,
            {
                let mut z: u8 = z1;
                while z < z2
                    invariant
                        (x1, y1, z1) == from,
                        (x2, y2, z2) == to,
                        cuboid == chunk_cuboid(from, to),
                        before.well_formed(),
                        x1 <= x < x2,
                        y1 <= y < y2,
                        z1 <= z,
                        self.wf(),
                        self@ == filled_before(
                            before,
                            cuboid,
                            block_state,
                            x as int,
                            y as int,
                            z as int,
                        ),
                    decreases z2 - z,
                {
                    proof {
                        lemma_fill_cell(before, cuboid, block_state, x as int, y as int, z as int);
                    }
                    self.set_block(x, y, z, block_state);
                    z += 1;
                }
                proof {
                    lemma_fill_row(before, cuboid, block_state, x as int, y as int, z as int);
                }
                y += 1;
            }
            proof {
                lemma_fill_slice(before, cuboid, block_state, x as int, y as int);
            }
            x += 1;
        }
        proof {
            lemma_fill_end(before, cuboid, block_state, x as int);
        }
    }

    /// A bit for each light section that is sent.
    pub fn light_mask(light: &[LightSection; 26]) -> (out: u64)
        ensures
            out == lit_mask(light@),
    {
        let mut out: u64 = 0;
        for i in 0..LIGHT_SECTION_COUNT
            invariant
                out == lit_mask(light@.take(i as int)),
        {
            let ghost digits = light@.take(i as int).map_values(|l: LightSection| !dark(l));
            let ghost next = light@.take(i + 1).map_values(|l: LightSection| !dark(l));
            proof {
                assert(next.drop_last() =~= digits);
                lemma_binary_bound(digits);
                bits::lemma_u64_pow2_no_overflow(i as nat);
                bits::lemma_u64_shl_is_mul(1, i as u64);
            }
            let bit: u64 = 1u64 << i;
            if !light[i].is_dark() {
                let shift: u64 = i as u64;
                assert(out | bit == out + bit) by (bit_vector)
                    requires
                        shift < 26,
                        bit == 1u64 << shift,
                        out < bit,
                ;
                out = out | bit;
            }
        }
        assert(light@.take(26) == light@);
        out
    }

    /// Appends a set of bits.
    pub fn write_bitset(to: &mut Vec<u8>, mask: u64)
        ensures
            final(to)@ == old(to)@ + bitset(mask as nat),
    {
        if mask == 0 {
            serialize::push(to, &0i32);
            return ;
        }
        serialize::push(to, &1i32);
        num::push_be(to, mask as u128, 8);
        assert(to@ =~= old(to)@ + bitset(mask as nat));
    }

    /// Appends the number of light sections that are sent, then those sections.
    pub fn write_light_sections(light: &[LightSection; 26], to: &mut Vec<u8>)
        requires
            forall|l: int| 0 <= l < 26 ==> light_valid(#[trigger] light@[l]),
        ensures
            final(to)@ == old(to)@ + lights(light@),
    {
        let mut present_count: usize = 0;
        for i in 0..LIGHT_SECTION_COUNT
            invariant
                present_count == lit_count(light@.take(i as int)),
                present_count <= i,
        {
            assert(light@.take(i + 1).drop_last() == light@.take(i as int));
            if !light[i].is_dark() {
                present_count += 1;
            }
        }
        assert(light@.take(26) == light@);
        serialize::push_count(to, present_count);
        let ghost head = to@;
        for i in 0..LIGHT_SECTION_COUNT
            invariant
                forall|l: int| 0 <= l < 26 ==> light_valid(#[trigger] light@[l]),
                to@ == head + lit_bytes(light@.take(i as int)),
        {
            assert(light@.take(i + 1).drop_last() == light@.take(i as int));
            if !light[i].is_dark() {
                serialize::push(to, &2048i32);
                light[i].write_to(to);
                assert(to@ =~= head + lit_bytes(light@.take(i + 1)));
            }
        }
        assert(to@ =~= old(to)@ + lights(light@));
    }

    /// The chunk as it is sent, at chunk coordinates `x` and `z`.
    pub fn serialize(&self, x: i32, z: i32) -> (out: Vec<u8>)
        requires
            self.wf(),
        ensures
            out@ == chunk_wire(self@, x, z),
    {
        let mut out: Vec<u8> = Vec::new();
        num::push_be(&mut out, num::i32_bits(x) as u128, 4);
        num::push_be(&mut out, num::i32_bits(z) as u128, 4);
        serialize::push_count(&mut out, 0);
        let mut data: Vec<u8> = Vec::new();
        for i in 0..SECTION_COUNT
            invariant
                self.wf(),
                data@ == sections_wire(self@.sections.take(i as int)),
        {
            let section = &self.sections[i];
            proof {
                section.lemma_parts();
                assert(self@.sections.take(i + 1).drop_last() == self@.sections.take(i as int));
                assert(self@.sections[i as int] == section@);
            }
            num::push_be(&mut data, section.block_count() as u128, 2);
            serialize::push(&mut data, section.block_states());
            serialize::push(&mut data, section.biomes());
            assert(data@ =~= sections_wire(self@.sections.take(i + 1)));
        }
        assert(self@.sections.take(24) == self@.sections);
        serialize::push_count(&mut out, data.len());
        out.append(&mut data);
        serialize::push_count(&mut out, 0);
        let ghost body = out@;
        let skyset: u64 = Self::light_mask(&self.skylight);
        let blockset: u64 = Self::light_mask(&self.blocklight);
        proof {
            light_is_announced_once(self@.skylight);
            light_is_announced_once(self@.blocklight);
        }
        let empty_skyset: u64 = skyset ^ LIGHT_SECTION_MASK;
        let empty_blockset: u64 = blockset ^ LIGHT_SECTION_MASK;
        Self::write_bitset(&mut out, skyset);
        Self::write_bitset(&mut out, blockset);
        Self::write_bitset(&mut out, empty_skyset);
        Self::write_bitset(&mut out, empty_blockset);
        Self::write_light_sections(&self.skylight, &mut out);
        Self::write_light_sections(&self.blocklight, &mut out);
        assert(out@ =~= body + light_wire(self@));
        assert(out@ =~= chunk_wire(self@, x, z));
        out
    }
}

} // verus!

