//! A section of a chunk: sixteen by sixteen by sixteen blocks.
use vstd::prelude::*;

use crate::num;
use crate::world::packing;
use crate::world::palette;
use crate::world::palette::{
    BiomePalettedContainer, BlockPalettedContainer, ContainerView, PalettedContainer, BLOCK_ENTRIES,
};

verus! {

/// How the blocks of a section are kept.
#[verifier::ext_equal]
pub enum Shape {
    /// One value for all.
    Single,
    /// Indices into a palette.
    Indirect { bits: u8, palette: Seq<u16> },
    /// The values themselves.
    Direct,
}

/// The blocks of a section, how they are kept, and its biomes.
#[verifier::ext_equal]
pub struct SectionView {
    pub blocks: Seq<u16>,
    pub shape: Shape,
    pub biomes: ContainerView<u8>,
}

/// The place of a block among the blocks of its section.
pub open spec fn block_index(x: int, y: int, z: int) -> int {
    y * 256 + z * 16 + x
}

/// The number of blocks that are not air, which is state 0.
pub open spec fn solid_count(blocks: Seq<u16>) -> nat
    decreases blocks.len(),
{
    if blocks.len() == 0 {
        0
    } else {
        solid_count(blocks.drop_last()) + if blocks.last() == 0 {
            0nat
        } else {
            1
        }
    }
}

/// The palette index of every block.
pub open spec fn indices(blocks: Seq<u16>, palette: Seq<u16>) -> Seq<u64> {
    blocks.map_values(|b: u16| palette.index_of(b) as u64)
}

/// The blocks that a container holds.
pub open spec fn blocks_of(container: ContainerView<u16>) -> Seq<u16> {
    Seq::new(
        BLOCK_ENTRIES as nat,
        |i: int|
            match container {
                ContainerView::Single(v) => v,
                ContainerView::Indirect { bits, palette, data } => palette[packing::entry(
                    data,
                    i,
                    bits,
                ) as int],
                ContainerView::Direct(values) => values[i],
            },
    )
}

/// How a container keeps its blocks.
pub open spec fn shape_of(container: ContainerView<u16>) -> Shape {
    match container {
        ContainerView::Single(_) => Shape::Single,
        ContainerView::Indirect { bits, palette, data } => Shape::Indirect { bits, palette },
        ContainerView::Direct(_) => Shape::Direct,
    }
}

impl SectionView {
    /// A section has 4096 blocks and one biome. Under one value the blocks are all alike. A palette
    /// holds every block of the section, nothing twice, and its indices fit in their bits.
    pub open spec fn holds_together(self) -> bool {
        &&& self.blocks.len() == BLOCK_ENTRIES
        &&& self.biomes is Single
        &&& match self.shape {
            Shape::Single => forall|i: int|
                0 <= i < BLOCK_ENTRIES ==> #[trigger] self.blocks[i] == self.blocks[0],
            Shape::Indirect { bits, palette } => {
                &&& 1 <= bits <= 64
                &&& 1 <= palette.len() <= usize::MAX
                &&& palette.no_duplicates()
                &&& packing::bit_length((palette.len() - 1) as nat) <= bits
                &&& forall|i: int|
                    0 <= i < BLOCK_ENTRIES ==> palette.contains(#[trigger] self.blocks[i])
            },
            Shape::Direct => true,
        }
    }

    /// A palette has at least two entries, and its indices have no more bits than they need.
    pub open spec fn uses_fewest_bits(self) -> bool {
        self.shape matches Shape::Indirect { bits, palette } ==> {
            &&& palette.len() >= 2
            &&& bits == packing::bit_length((palette.len() - 1) as nat)
        }
    }

    /// What holds of every section: its parts hold together, and it uses the fewest bits.
    pub open spec fn well_formed(self) -> bool {
        &&& self.holds_together()
        &&& self.uses_fewest_bits()
    }

    /// The container that keeps these blocks in this shape.
    pub open spec fn container(self) -> ContainerView<u16> {
        match self.shape {
            Shape::Single => ContainerView::Single(self.blocks[0]),
            Shape::Indirect { bits, palette } => ContainerView::Indirect {
                bits,
                palette,
                data: packing::pack(indices(self.blocks, palette), bits),
            },
            Shape::Direct => ContainerView::Direct(self.blocks),
        }
    }

    /// The shape in which the section can also hold `state`: a second value makes a palette of
    /// the two, and a value that a palette lacks is added at its end, with more bits for the
    /// indices if they need them.
    pub open spec fn shape_with(self, state: u16) -> Shape {
        match self.shape {
            Shape::Single => if self.blocks[0] == state {
                Shape::Single
            } else {
                Shape::Indirect { bits: 1, palette: seq![self.blocks[0], state] }
            },
            Shape::Indirect { bits, palette } => if palette.contains(state) {
                self.shape
            } else {
                let needed = packing::bit_length(palette.len());
                Shape::Indirect {
                    bits: if needed > bits {
                        needed as u8
                    } else {
                        bits
                    },
                    palette: palette.push(state),
                }
            },
            Shape::Direct => Shape::Direct,
        }
    }

    /// The section with the block at `i` replaced.
    pub open spec fn with_block(self, i: int, state: u16) -> SectionView {
        SectionView {
            blocks: self.blocks.update(i, state),
            shape: self.shape_with(state),
            biomes: self.biomes,
        }
    }

    /// Whether a block can be read at `i`: anywhere under one value, in the words that there are
    /// under a palette.
    pub open spec fn readable(self, i: int) -> bool {
        match self.shape {
            Shape::Single => true,
            Shape::Indirect { bits, palette } => packing::word_index(i, bits)
                < packing::word_count(BLOCK_ENTRIES as int, bits),
            Shape::Direct => i < BLOCK_ENTRIES,
        }
    }

    /// What is read at `i`. Past the last block the words of a palette hold index 0.
    pub open spec fn read(self, i: int) -> u16 {
        if i < BLOCK_ENTRIES {
            self.blocks[i]
        } else {
            match self.shape {
                Shape::Indirect { bits, palette } => palette[0],
                _ => self.blocks[0],
            }
        }
    }
}

/// The wire form of a section: the number of blocks that are not air, the blocks, the biomes.
pub open spec fn section_wire(section: SectionView) -> Seq<u8> {
    num::be_bytes(solid_count(section.blocks), 2) + palette::blocks_wire(section.container())
        + palette::biomes_wire(section.biomes)
}

/// A section that is filled with one block state throughout.
pub open spec fn uniform(state: u16, biomes: ContainerView<u8>) -> SectionView {
    SectionView {
        blocks: Seq::new(BLOCK_ENTRIES as nat, |i: int| state),
        shape: Shape::Single,
        biomes,
    }
}

/// A box of cells: corners `(x1, y1, z1)` and `(x2, y2, z2)`, the second outside of it.
pub struct Cuboid {
    pub x1: int,
    pub y1: int,
    pub z1: int,
    pub x2: int,
    pub y2: int,
    pub z2: int,
}

impl Cuboid {
    /// Whether the box holds the cell.
    pub open spec fn holds(self, x: int, y: int, z: int) -> bool {
        &&& self.x1 <= x < self.x2
        &&& self.y1 <= y < self.y2
        &&& self.z1 <= z < self.z2
    }

    /// Whether the box holds block `i` of a section whose lowest layer is at `base`.
    pub open spec fn holds_block(self, base: int, i: int) -> bool {
        self.holds(i % 16, base + i / 256, (i / 16) % 16)
    }

    /// Whether the box holds block `i` at a place before `(x, y, z)`, going by `x` first, then by
    /// `y`, then by `z`.
    pub open spec fn holds_before(self, x: int, y: int, z: int, base: int, i: int) -> bool {
        let (a, b, c) = (i % 16, base + i / 256, (i / 16) % 16);
        self.holds(a, b, c) && (a < x || (a == x && (b < y || (b == y && c < z))))
    }
}

/// The section with all the chosen blocks replaced. Its shape takes in the new state if any block
/// is chosen.
pub open spec fn painted(
    section: SectionView,
    chosen: spec_fn(int) -> bool,
    state: u16,
) -> SectionView {
    SectionView {
        blocks: Seq::new(
            section.blocks.len(),
            |i: int|
                if chosen(i) {
                    state
                } else {
                    section.blocks[i]
                },
        ),
        shape: if exists|i: int| 0 <= i < BLOCK_ENTRIES && #[trigger] chosen(i) {
            section.shape_with(state)
        } else {
            section.shape
        },
        biomes: section.biomes,
    }
}

/// The section whose lowest layer is at `base`, with all blocks in the box replaced.
pub open spec fn filled(section: SectionView, cuboid: Cuboid, base: int, state: u16) -> SectionView {
    painted(section, |i: int| cuboid.holds_block(base, i), state)
}

/// The section whose lowest layer is at `base`, with the blocks in the box before `(x, y, z)`
/// replaced.
pub open spec fn filled_before(
    section: SectionView,
    cuboid: Cuboid,
    base: int,
    state: u16,
    x: int,
    y: int,
    z: int,
) -> SectionView {
    painted(section, |i: int| cuboid.holds_before(x, y, z, base, i), state)
}

proof fn lemma_painted_same(
    section: SectionView,
    one: spec_fn(int) -> bool,
    other: spec_fn(int) -> bool,
    state: u16,
)
    requires
        section.well_formed(),
        forall|i: int| 0 <= i < BLOCK_ENTRIES ==> #[trigger] one(i) == other(i),
    ensures
        painted(section, one, state) == painted(section, other, state),
{
    assert(painted(section, one, state).blocks =~= painted(section, other, state).blocks);
    if exists|i: int| 0 <= i < BLOCK_ENTRIES && #[trigger] one(i) {
        let i = choose|i: int| 0 <= i < BLOCK_ENTRIES && #[trigger] one(i);
        assert(other(i));
    }
    if exists|i: int| 0 <= i < BLOCK_ENTRIES && #[trigger] other(i) {
        let i = choose|i: int| 0 <= i < BLOCK_ENTRIES && #[trigger] other(i);
        assert(one(i));
    }
}

proof fn lemma_painted_none(section: SectionView, chosen: spec_fn(int) -> bool, state: u16)
    requires
        section.well_formed(),
        forall|i: int| 0 <= i < BLOCK_ENTRIES ==> !#[trigger] chosen(i),
    ensures
        painted(section, chosen, state) == section,
{
    assert(painted(section, chosen, state).blocks =~= section.blocks);
}

proof fn lemma_painted_one(
    section: SectionView,
    before: spec_fn(int) -> bool,
    after: spec_fn(int) -> bool,
    k: int,
    state: u16,
)
    requires
        section.well_formed(),
        0 <= k < BLOCK_ENTRIES,
        forall|i: int| 0 <= i < BLOCK_ENTRIES ==> #[trigger] after(i) == (before(i) || i == k),
    ensures
        painted(section, after, state) == painted(section, before, state).with_block(k, state),
{
    let one = painted(section, before, state);
    let other = painted(section, after, state);
    assert(other.blocks =~= one.with_block(k, state).blocks);
    assert(after(k));
    if exists|i: int| 0 <= i < BLOCK_ENTRIES && #[trigger] before(i) {
        let i = choose|i: int| 0 <= i < BLOCK_ENTRIES && #[trigger] before(i);
        match section.shape {
            Shape::Single => {
                assert(section.blocks[0] == section.blocks[i]);
                assert(seq![section.blocks[0], state][1] == state);
            },
            Shape::Indirect { bits, palette } => {
                assert(palette.push(state)[palette.len() as int] == state);
            },
            Shape::Direct => {},
        }
    } else {
        assert(!before(0));
        assert(one.blocks =~= section.blocks);
    }
}

/// Filling starts from the section as it is.
pub proof fn lemma_fill_start(section: SectionView, cuboid: Cuboid, base: int, state: u16)
    requires
        section.well_formed(),
    ensures
        filled_before(section, cuboid, base, state, cuboid.x1, cuboid.y1, cuboid.z1) == section,
{
    lemma_painted_none(
        section,
        |i: int| cuboid.holds_before(cuboid.x1, cuboid.y1, cuboid.z1, base, i),
        state,
    );
}

/// Filling one more cell replaces the block that is there, if it is in the section.
#[verifier::spinoff_prover]
pub proof fn lemma_fill_cell(
    section: SectionView,
    cuboid: Cuboid,
    base: int,
    state: u16,
    x: int,
    y: int,
    z: int,
)
    requires
        section.well_formed(),
        cuboid.holds(x, y, z),
    ensures
        filled_before(section, cuboid, base, state, x, y, z + 1) == {
            let before = filled_before(section, cuboid, base, state, x, y, z);
            if 0 <= x < 16 && base <= y < base + 16 && 0 <= z < 16 {
                before.with_block(block_index(x, y - base, z), state)
            } else {
                before
            }
        },
{
    let before = |i: int| cuboid.holds_before(x, y, z, base, i);
    let after = |i: int| cuboid.holds_before(x, y, z + 1, base, i);
    if 0 <= x < 16 && base <= y < base + 16 && 0 <= z < 16 {
        let k = block_index(x, y - base, z);
        assert forall|i: int| 0 <= i < BLOCK_ENTRIES implies #[trigger] after(i) == (before(i) || i
            == k) by {
            lemma_cell(cuboid, base, x, y, z, i);
        }
        lemma_painted_one(section, before, after, k, state);
    } else {
        assert forall|i: int| 0 <= i < BLOCK_ENTRIES implies #[trigger] before(i) == after(i) by {
            lemma_cell(cuboid, base, x, y, z, i);
        }
        lemma_painted_same(section, before, after, state);
    }
}

proof fn lemma_cell(cuboid: Cuboid, base: int, x: int, y: int, z: int, i: int)
    requires
        0 <= i < BLOCK_ENTRIES,
        cuboid.holds(x, y, z),
    ensures
        cuboid.holds_before(x, y, z + 1, base, i) == (cuboid.holds_before(x, y, z, base, i) || (i
            == block_index(x, y - base, z) && 0 <= x < 16 && base <= y < base + 16 && 0 <= z < 16)),
{
    let (a, b, c) = (i % 16, i / 256, (i / 16) % 16);
    assert(i == 256 * b + 16 * c + a && 0 <= a < 16 && 0 <= b < 16 && 0 <= c < 16);
}

/// The end of a row is the start of the next one.
pub proof fn lemma_fill_row(
    section: SectionView,
    cuboid: Cuboid,
    base: int,
    state: u16,
    x: int,
    y: int,
    z: int,
)
    requires
        section.well_formed(),
        z >= cuboid.z2,
    ensures
        filled_before(section, cuboid, base, state, x, y, z) == filled_before(
            section,
            cuboid,
            base,
            state,
            x,
            y + 1,
            cuboid.z1,
        ),
{
    lemma_painted_same(
        section,
        |i: int| cuboid.holds_before(x, y, z, base, i),
        |i: int| cuboid.holds_before(x, y + 1, cuboid.z1, base, i),
        state,
    );
}

/// The end of a slice is the start of the next one.
pub proof fn lemma_fill_slice(
    section: SectionView,
    cuboid: Cuboid,
    base: int,
    state: u16,
    x: int,
    y: int,
)
    requires
        section.well_formed(),
        y >= cuboid.y2,
    ensures
        filled_before(section, cuboid, base, state, x, y, cuboid.z1) == filled_before(
            section,
            cuboid,
            base,
            state,
            x + 1,
            cuboid.y1,
            cuboid.z1,
        ),
{
    lemma_painted_same(
        section,
        |i: int| cuboid.holds_before(x, y, cuboid.z1, base, i),
        |i: int| cuboid.holds_before(x + 1, cuboid.y1, cuboid.z1, base, i),
        state,
    );
}

/// Filling ends with the whole box filled.
pub proof fn lemma_fill_end(section: SectionView, cuboid: Cuboid, base: int, state: u16, x: int)
    requires
        section.well_formed(),
        x >= cuboid.x2,
    ensures
        filled_before(section, cuboid, base, state, x, cuboid.y1, cuboid.z1) == filled(
            section,
            cuboid,
            base,
            state,
        ),
{
    lemma_painted_same(
        section,
        |i: int| cuboid.holds_before(x, cuboid.y1, cuboid.z1, base, i),
        |i: int| cuboid.holds_block(base, i),
        state,
    );
}

proof fn lemma_solid_count_bound(blocks: Seq<u16>)
    ensures
        solid_count(blocks) <= blocks.len(),
    decreases blocks.len(),
{
    if blocks.len() > 0 {
        lemma_solid_count_bound(blocks.drop_last());
    }
}

proof fn lemma_solid_count_update(blocks: Seq<u16>, i: int, state: u16)
    requires
        0 <= i < blocks.len(),
    ensures
        solid_count(blocks.update(i, state)) == solid_count(blocks) - (if blocks[i] == 0 {
            0int
        } else {
            1
        }) + (if state == 0 {
            0int
        } else {
            1
        }),
        blocks[i] != 0 ==> solid_count(blocks) > 0,
        blocks[i] == 0 ==> solid_count(blocks) < blocks.len(),
    decreases blocks.len(),
{
    let last = blocks.len() - 1;
    if i == last {
        assert(blocks.update(i, state).drop_last() == blocks.drop_last());
        lemma_solid_count_bound(blocks.drop_last());
    } else {
        assert(blocks.update(i, state).drop_last() == blocks.drop_last().update(i, state));
        lemma_solid_count_update(blocks.drop_last(), i, state);
    }
}

proof fn lemma_solid_count_uniform(blocks: Seq<u16>, state: u16)
    requires
        forall|i: int| 0 <= i < blocks.len() ==> blocks[i] == state,
    ensures
        solid_count(blocks) == if state == 0 {
            0
        } else {
            blocks.len()
        },
    decreases blocks.len(),
{
    if blocks.len() > 0 {
        lemma_solid_count_uniform(blocks.drop_last(), state);
    }
}

/// Reading the packed indices of a section.
pub proof fn lemma_index_entries(section: SectionView, i: int)
    requires
        section.holds_together(),
        section.shape is Indirect,
        0 <= i,
        section.readable(i),
    ensures
        ({
            let bits = section.shape->bits;
            let palette = section.shape->palette;
            let data = packing::pack(indices(section.blocks, palette), bits);
            let e = packing::entry(data, i, bits);
            &&& e < palette.len()
            &&& palette[e as int] == section.read(i)
            &&& i < BLOCK_ENTRIES ==> e == indices(section.blocks, palette)[i]
        }),
{
    let bits = section.shape->bits;
    let palette = section.shape->palette;
    let values = indices(section.blocks, palette);
    packing::pack_then_read(values, bits, i);
    if i < BLOCK_ENTRIES {
        let block = section.blocks[i];
        assert(palette.contains(block));
        packing::lemma_fits_mask(values[i], (palette.len() - 1) as u64, bits);
    }
}

/// The container of a well-formed section holds its blocks, in its shape.
pub proof fn lemma_container_view(section: SectionView)
    requires
        section.well_formed(),
    ensures
        blocks_of(section.container()) == section.blocks,
        shape_of(section.container()) == section.shape,
{
    assert forall|i: int| 0 <= i < BLOCK_ENTRIES implies #[trigger] blocks_of(
        section.container(),
    )[i] == section.blocks[i] by {
        if section.shape is Indirect {
            packing::lemma_place(i, BLOCK_ENTRIES as int, section.shape->bits);
            lemma_index_entries(section, i);
        }
    }
    assert(blocks_of(section.container()) =~= section.blocks);
}

/// A section is settled by its blocks and the shape they are kept in: the container that keeps
/// them can be no other.
pub proof fn container_is_unique(one: SectionView, other: SectionView)
    requires
        one.well_formed(),
        other.well_formed(),
        blocks_of(one.container()) == blocks_of(other.container()),
        shape_of(one.container()) == shape_of(other.container()),
    ensures
        one.container() == other.container(),
{
    lemma_container_view(one);
    lemma_container_view(other);
}

proof fn lemma_index_of(palette: Seq<u16>, p: int)
    requires
        palette.no_duplicates(),
        0 <= p < palette.len(),
    ensures
        palette.index_of(palette[p]) == p,
{
    assert(palette.contains(palette[p]));
}

/// Replacing a block of a well-formed section gives a well-formed section.
pub proof fn with_block_is_well_formed(section: SectionView, i: int, state: u16)
    requires
        section.well_formed(),
        0 <= i < BLOCK_ENTRIES,
    ensures
        section.with_block(i, state).well_formed(),
{
    let after = section.with_block(i, state);
    match section.shape {
        Shape::Single => {
            if section.blocks[0] != state {
                let palette = seq![section.blocks[0], state];
                reveal_with_fuel(packing::bit_length, 2);
                assert(palette[0] == section.blocks[0]);
                assert(palette[1] == state);
                assert forall|k: int| 0 <= k < BLOCK_ENTRIES implies palette.contains(
                    #[trigger] after.blocks[k],
                ) by {}
            }
        },
        Shape::Indirect { bits, palette } => {
            if palette.contains(state) {
                assert forall|k: int| 0 <= k < BLOCK_ENTRIES implies palette.contains(
                    #[trigger] after.blocks[k],
                ) by {
                    assert(palette.contains(section.blocks[k]));
                }
            } else {
                let wider = palette.push(state);
                lemma_palette_bound(palette);
                packing::lemma_bit_length_zeros(palette.len() as u64);
                packing::lemma_bit_length_grows((palette.len() - 1) as nat, palette.len());
                assert(wider.no_duplicates());
                assert(wider[palette.len() as int] == state);
                assert forall|k: int| 0 <= k < BLOCK_ENTRIES implies wider.contains(
                    #[trigger] after.blocks[k],
                ) by {
                    if k != i {
                        assert(palette.contains(section.blocks[k]));
                        let p = palette.index_of(section.blocks[k]);
                        assert(wider[p] == section.blocks[k]);
                    }
                }
            }
        },
        Shape::Direct => {},
    }
}

/// A section of one block state is well formed.
pub proof fn uniform_is_well_formed(state: u16, biome: u8)
    ensures
        uniform(state, ContainerView::Single(biome)).well_formed(),
{
}

proof fn lemma_painted_well_formed(section: SectionView, chosen: spec_fn(int) -> bool, state: u16)
    requires
        section.well_formed(),
    ensures
        painted(section, chosen, state).well_formed(),
{
    let after = painted(section, chosen, state);
    if exists|i: int| 0 <= i < BLOCK_ENTRIES && #[trigger] chosen(i) {
        let k = choose|i: int| 0 <= i < BLOCK_ENTRIES && #[trigger] chosen(i);
        let one = section.with_block(k, state);
        with_block_is_well_formed(section, k, state);
        assert(one.blocks[k] == state);
        if one.shape is Indirect {
            assert forall|i: int| 0 <= i < BLOCK_ENTRIES implies one.shape->palette.contains(
                #[trigger] after.blocks[i],
            ) by {
                assert(one.shape->palette.contains(one.blocks[i]));
                assert(one.shape->palette.contains(one.blocks[k]));
            }
        } else if one.shape is Single {
            assert forall|i: int| 0 <= i < BLOCK_ENTRIES implies #[trigger] after.blocks[i]
                == after.blocks[0] by {
                assert(one.blocks[i] == one.blocks[0]);
                assert(one.blocks[k] == one.blocks[0]);
            }
        }
    } else {
        lemma_painted_none(section, chosen, state);
    }
}

/// Filling a box in a well-formed section gives a well-formed section.
pub proof fn filled_is_well_formed(section: SectionView, cuboid: Cuboid, base: int, state: u16)
    requires
        section.well_formed(),
    ensures
        filled(section, cuboid, base, state).well_formed(),
{
    lemma_painted_well_formed(section, |i: int| cuboid.holds_block(base, i), state);
}

/// The indices into a palette never have more bits than they need: not in a section of one block
/// state, and not after a block was replaced or a box filled.
pub proof fn palettes_use_fewest_bits(
    section: SectionView,
    i: int,
    cuboid: Cuboid,
    base: int,
    state: u16,
)
    requires
        section.well_formed(),
        0 <= i < BLOCK_ENTRIES,
    ensures
        section.uses_fewest_bits(),
        uniform(state, section.biomes).uses_fewest_bits(),
        section.with_block(i, state).uses_fewest_bits(),
        filled(section, cuboid, base, state).uses_fewest_bits(),
{
    with_block_is_well_formed(section, i, state);
    filled_is_well_formed(section, cuboid, base, state);
}

/// Placing the same block state twice changes the shape once.
pub proof fn shape_with_is_stable(section: SectionView, i: int, state: u16)
    requires
        section.well_formed(),
        0 <= i < BLOCK_ENTRIES,
    ensures
        section.with_block(i, state).shape_with(state) == section.shape_with(state),
{
    match section.shape {
        Shape::Single => {
            if section.blocks[0] != state {
                assert(seq![section.blocks[0], state][1] == state);
            }
        },
        Shape::Indirect { bits, palette } => {
            assert(palette.push(state)[palette.len() as int] == state);
        },
        Shape::Direct => {},
    }
}

/// A client that reads the indices as they are sent finds every block of the section: the words
/// that go out hold the indices with at least four bits each.
pub proof fn sent_indices_read_back(section: SectionView, i: int)
    requires
        section.well_formed(),
        section.shape is Indirect,
        0 <= i < BLOCK_ENTRIES,
    ensures
        ({
            let bits = section.shape->bits;
            let palette = section.shape->palette;
            let wire_bits = if bits < palette::MIN_BLOCK_BITS {
                palette::MIN_BLOCK_BITS
            } else {
                bits
            };
            let data = packing::pack(indices(section.blocks, palette), bits);
            let sent = palette::block_wire_data(bits, data);
            &&& sent.len() == packing::word_count(BLOCK_ENTRIES as int, wire_bits)
            &&& packing::entry(sent, i, wire_bits) < palette.len()
            &&& palette[packing::entry(sent, i, wire_bits) as int] == section.blocks[i]
        }),
{
    let bits = section.shape->bits;
    let palette = section.shape->palette;
    let values = indices(section.blocks, palette);
    packing::lemma_place(i, BLOCK_ENTRIES as int, bits);
    lemma_index_entries(section, i);
    if bits < palette::MIN_BLOCK_BITS {
        let wider = SectionView {
            shape: Shape::Indirect { bits: palette::MIN_BLOCK_BITS, palette },
            ..section
        };
        lemma_unpack_indices(section);
        packing::lemma_place(i, BLOCK_ENTRIES as int, palette::MIN_BLOCK_BITS);
        lemma_index_entries(wider, i);
    }
}

/// A client that reads block states that are sent themselves finds every block of the section, as
/// long as the states fit in fifteen bits.
pub proof fn sent_states_read_back(section: SectionView, i: int)
    requires
        section.well_formed(),
        section.shape is Direct,
        0 <= i < BLOCK_ENTRIES,
        section.blocks[i] < 0x8000,
    ensures
        packing::entry(
            packing::pack(
                section.blocks.map_values(|v: u16| v as u64),
                palette::DIRECT_BLOCK_BITS,
            ),
            i,
            palette::DIRECT_BLOCK_BITS,
        ) == section.blocks[i],
{
    let values = section.blocks.map_values(|v: u16| v as u64);
    let bits = palette::DIRECT_BLOCK_BITS;
    packing::lemma_place(i, BLOCK_ENTRIES as int, bits);
    packing::pack_then_read(values, bits, i);
    reveal_with_fuel(packing::bit_length, 16);
    packing::lemma_fits_mask(values[i], 0x7FFF, bits);
}

/// A block that was just placed is read back, and every other block reads as before.
pub proof fn place_then_read(section: SectionView, i: int, state: u16, k: int)
    requires
        section.well_formed(),
        0 <= i < BLOCK_ENTRIES,
        0 <= k < BLOCK_ENTRIES,
    ensures
        section.with_block(i, state).read(k) == if k == i {
            state
        } else {
            section.read(k)
        },
{
}

/// The box between two corners within a section.
pub open spec fn section_cuboid(from: (u8, u8, u8), to: (u8, u8, u8)) -> Cuboid {
    Cuboid {
        x1: from.0 as int,
        y1: from.1 as int,
        z1: from.2 as int,
        x2: to.0 as int,
        y2: to.1 as int,
        z2: to.2 as int,
    }
}

/// A section of a chunk.
#[derive(Debug)]
pub struct ChunkSection {
    block_count: u16,
    block_states: BlockPalettedContainer,
    biomes: BiomePalettedContainer,
}

impl View for ChunkSection {
    type V = SectionView;

    closed spec fn view(&self) -> SectionView {
        SectionView {
            blocks: blocks_of(self.block_states@),
            shape: shape_of(self.block_states@),
            biomes: self.biomes@,
        }
    }
}

impl ChunkSection {
    /// The section is well formed, its container keeps its blocks and nothing else, and its
    /// counter is the number of blocks that are not air.
    pub closed spec fn wf(&self) -> bool {
        &&& self@.well_formed()
        &&& self.block_states@ == self@.container()
        &&& self.block_count == solid_count(self@.blocks)
    }

    /// What `wf` says of the parts that other modules write out.
    pub proof fn lemma_parts(&self)
        requires
            self.wf(),
        ensures
            self@.well_formed(),
            self.spec_block_count() == solid_count(self@.blocks),
            self.spec_block_states()@ == self@.container(),
            self.spec_biomes()@ == self@.biomes,
            palette::blocks_have_wire(self@.container()),
    {
        if self@.shape is Indirect {
            packing::lemma_word_count_bounds(BLOCK_ENTRIES as int, self@.shape->bits);
        }
    }

    /// The counter, the container of the blocks and that of the biomes.
    pub closed spec fn spec_block_count(&self) -> u16 {
        self.block_count
    }

    pub closed spec fn spec_block_states(&self) -> BlockPalettedContainer {
        self.block_states
    }

    pub closed spec fn spec_biomes(&self) -> BiomePalettedContainer {
        self.biomes
    }

    /// The number of blocks that are not air.
    pub fn block_count(&self) -> (r: u16)
        ensures
            r == self.spec_block_count(),
            self.wf() ==> r == solid_count(self@.blocks),
    {
        self.block_count
    }

    /// The container that keeps the blocks.
    pub fn block_states(&self) -> (r: &BlockPalettedContainer)
        ensures
            *r == self.spec_block_states(),
            self.wf() ==> r@ == self@.container(),
    {
        &self.block_states
    }

    /// The container that keeps the biomes.
    pub fn biomes(&self) -> (r: &BiomePalettedContainer)
        ensures
            *r == self.spec_biomes(),
            r@ == self@.biomes,
    {
        &self.biomes
    }

    /// A section of air.
    pub fn new() -> (r: Self)
        ensures
            r.wf(),
            r@ == uniform(0, ContainerView::Single(0)),
    {
        let r = ChunkSection {
            block_count: 0,
            block_states: PalettedContainer::Single(0),
            biomes: PalettedContainer::Single(0),
        };
        proof {
            assert(r@ =~= uniform(0, ContainerView::Single(0)));
            lemma_solid_count_uniform(r@.blocks, 0);
        }
        r
    }

    /// Replaces the block at the given place; one that is outside of the section is ignored.
    pub fn set_block(&mut self, x: u8, y: u8, z: u8, block_state: u16)
        requires
            old(self).wf(),
        ensures
            final(self).wf(),
            final(self)@ == if x > 15 || y > 15 || z > 15 {
                old(self)@
            } else {
                old(self)@.with_block(block_index(x as int, y as int, z as int), block_state)
            },
    {
        if x > 15 || y > 15 || z > 15 {
            return ;
        }
        let ghost before = self@;
        let entry_index: usize = Self::entry_index(x, y, z);
        let ghost i = entry_index as int;
        let ghost after = before.with_block(i, block_state);
        let previous_block_state: u16 = self.get_block(x, y, z);
        let mut container: BlockPalettedContainer = PalettedContainer::Single(0);
        std::mem::swap(&mut container, &mut self.block_states);
        let container: BlockPalettedContainer = match container {
            PalettedContainer::Single(state) => {
                if block_state == state {
                    assert(after.blocks =~= before.blocks);
                    PalettedContainer::Single(state)
                } else {
                    let bits_per_entry: u8 = 1;
                    let mut data: Vec<u64> = Vec::new();
                    data.resize(Self::packed_word_count(bits_per_entry), 0);
                    let palette: Vec<u16> = vec![state, block_state];
                    proof {
                        let zeros = Seq::new(BLOCK_ENTRIES as nat, |k: int| 0u64);
                        packing::lemma_pack_zeros(zeros, 1);
                        assert(data@ =~= packing::pack(zeros, 1));
                        packing::replace_then_pack(zeros, 1, i, 1);
                        packing::lemma_place(i, BLOCK_ENTRIES as int, 1);
                        lemma_index_of(palette@, 0);
                        lemma_index_of(palette@, 1);
                        assert(palette@ =~= seq![before.blocks[0], block_state]);
                        assert(indices(after.blocks, palette@) =~= zeros.update(i, 1));
                    }
                    Self::set_packed_entry(data.as_mut_slice(), entry_index, bits_per_entry, 1);
                    PalettedContainer::Indirect { bits_per_entry, palette, data }
                }
            },
            PalettedContainer::Indirect { mut bits_per_entry, mut palette, mut data } => {
                let ghost old_palette = palette@;
                let ghost values = indices(before.blocks, old_palette);
                let found: Option<usize> = Self::palette_position(&palette, block_state);
                let palette_index: usize = match found {
                    Some(index) => index,
                    None => {
                        let next_index: usize = palette.len();
                        proof {
                            lemma_palette_bound(old_palette);
                        }
                        let required_bits: u8 = Self::bits_required_for_palette_len(next_index + 1);
                        if required_bits > bits_per_entry {
                            proof {
                                lemma_unpack_indices(before);
                                packing::lemma_word_count_bounds(
                                    BLOCK_ENTRIES as int,
                                    bits_per_entry,
                                );
                            }
                            data = Self::repack_packed_data(
                                data.as_slice(),
                                bits_per_entry,
                                required_bits,
                            );
                            bits_per_entry = required_bits;
                        }
                        palette.push(block_state);
                        next_index
                    },
                };
                proof {
                    with_block_is_well_formed(before, i, block_state);
                    assert(data@ == packing::pack(values, bits_per_entry));
                    packing::lemma_place(i, BLOCK_ENTRIES as int, bits_per_entry);
                    packing::replace_then_pack(values, bits_per_entry, i, palette_index as u64);
                    lemma_index_of(palette@, palette_index as int);
                    assert forall|k: int| 0 <= k < BLOCK_ENTRIES && k != i implies #[trigger] indices(
                        after.blocks,
                        palette@,
                    )[k] == values[k] by {
                        let block = before.blocks[k];
                        assert(old_palette.contains(block));
                        let p = old_palette.index_of(block);
                        assert(palette@[p] == block);
                        lemma_index_of(palette@, p);
                    }
                    assert(indices(after.blocks, palette@) =~= values.update(
                        i,
                        palette_index as u64,
                    ));
                }
                Self::set_packed_entry(
                    data.as_mut_slice(),
                    entry_index,
                    bits_per_entry,
                    palette_index as u64,
                );
                PalettedContainer::Indirect { bits_per_entry, palette, data }
            },
            PalettedContainer::Direct(mut data) => {
                data[entry_index] = block_state;
                PalettedContainer::Direct(data)
            },
        };
        self.block_states = container;
        proof {
            with_block_is_well_formed(before, i, block_state);
            assert(self.block_states@ == after.container());
            lemma_container_view(after);
            lemma_solid_count_update(before.blocks, i, block_state);
            lemma_solid_count_bound(before.blocks);
        }
        if previous_block_state == 0 && block_state != 0 {
            self.block_count = self.block_count + 1;
        } else if previous_block_state != 0 && block_state == 0 {
            self.block_count = self.block_count - 1;
        }
    }

    /// The first place of a value in a palette.
    fn palette_position(palette: &Vec<u16>, block_state: u16) -> (r: Option<usize>)
        ensures
            match r {
                Some(p) => p < palette@.len() && palette@[p as int] == block_state,
                None => !palette@.contains(block_state),
            },
    {
        for p in 0..palette.len()
            invariant
                forall|k: int| 0 <= k < p ==> palette@[k] != block_state,
        {
            if palette[p] == block_state {
                return Some(p);
            }
        }
        None
    }

    /// The block at the given place. A place outside of the section must still be readable.
    pub fn get_block(&self, x: u8, y: u8, z: u8) -> (r: u16)
        requires
            self.wf(),
            x < 16 && y < 16 && z < 16 || self@.readable(
                block_index(x as int, y as int, z as int),
            ),
        ensures
            r == self@.read(block_index(x as int, y as int, z as int)),
    {
        let entry_index: usize = Self::entry_index(x, y, z);
        match &self.block_states {
            PalettedContainer::Single(s) => {
                assert(self@.blocks[0] == *s);
                *s
            },
            PalettedContainer::Indirect { bits_per_entry, palette, data } => {
                proof {
                    if x < 16 && y < 16 && z < 16 {
                        packing::lemma_place(
                            entry_index as int,
                            BLOCK_ENTRIES as int,
                            *bits_per_entry,
                        );
                    }
                    lemma_index_entries(self@, entry_index as int);
                }
                let index: u64 = Self::packed_entry(data.as_slice(), entry_index, *bits_per_entry);
                palette[index as usize]
            },
            PalettedContainer::Direct(data) => data[entry_index],
        }
    }

    /// Fills the whole section with one block state.
    pub fn fill_all(&mut self, block_state: u16)
        requires
            old(self).wf(),
        ensures
            final(self).wf(),
            final(self)@ == uniform(block_state, old(self)@.biomes),
    {
        self.block_states = PalettedContainer::Single(block_state);
        self.block_count = if block_state == 0 {
            0
        } else {
            4096
        };
        proof {
            assert(self@ =~= uniform(block_state, old(self)@.biomes));
            lemma_solid_count_uniform(self@.blocks, block_state);
        }
    }

    /// Replaces all blocks of a box whose second corner is outside of it; what is outside of the
    /// section is ignored.
    pub fn fill(&mut self, from: (u8, u8, u8), to: (u8, u8, u8), block_state: u16)
        requires
            old(self).wf(),
        ensures
            final(self).wf(),
            final(self)@ == filled(old(self)@, section_cuboid(from, to), 0, block_state),
    {
        let (x1, y1, z1) = from;
        let (x2, y2, z2) = to;
        let ghost before = self@;
        let ghost cuboid = section_cuboid(from, to);
        proof {
            lemma_fill_start(before, cuboid, 0, block_state);
        }
        let mut x: u8 = x1;
        while x < x2
            invariant
                (x1, y1, z1) == from,
                (x2, y2, z2) == to,
                cuboid == section_cuboid(from, to),
                before.well_formed(),
                x1 <= x,
                self.wf(),
                self@ == filled_before(before, cuboid, 0, block_state, x as int, y1 as int, z1 as int),
            decreases x2 - x,
        {
            let mut y: u8 = y1;
            while y < y2
                invariant
                    (x1, y1, z1) == from,
                    (x2, y2, z2) == to,
                    cuboid == section_cuboid(from, to),
                    before.well_formed(),
                    x1 <= x < x2,
                    y1 <= y,
                    self.wf(),
                    self@ == filled_before(before, cuboid, 0, block_state, x as int, y as int, z1 as int),
                decreases y2 - y,
            {
                let mut z: u8 = z1;
                while z < z2
                    invariant
                        (x1, y1, z1) == from,
                        (x2, y2, z2) == to,
                        cuboid == section_cuboid(from, to),
                        before.well_formed(),
                        x1 <= x < x2,
                        y1 <= y < y2,
                        z1 <= z,
                        self.wf(),
                        self@ == filled_before(
                            before,
                            cuboid,
                            0,
                            block_state,
                            x as int,
                            y as int,
                            z as int,
                        ),
                    decreases z2 - z,
                {
                    proof {
                        lemma_fill_cell(
                            before,
                            cuboid,
                            0,
                            block_state,
                            x as int,
                            y as int,
                            z as int,
                        );
                    }
                    self.set_block(x, y, z, block_state);
                    z += 1;
                }
                proof {
                    lemma_fill_row(before, cuboid, 0, block_state, x as int, y as int, z as int);
                }
                y += 1;
            }
            proof {
                lemma_fill_slice(before, cuboid, 0, block_state, x as int, y as int);
            }
            x += 1;
        }
        proof {
            lemma_fill_end(before, cuboid, 0, block_state, x as int);
        }
    }

    /// Replaces an entry of the packed words by the low bits of `value`.
    pub fn set_packed_entry(data: &mut [u64], entry_index: usize, bits_per_entry: u8, value: u64)
        requires
            1 <= bits_per_entry <= 64,
            packing::word_index(entry_index as int, bits_per_entry) < old(data)@.len(),
        ensures
            final(data)@ == packing::with_entry(
                old(data)@,
                entry_index as int,
                bits_per_entry,
                value,
            ),
    {
        proof {
            packing::lemma_place(entry_index as int, entry_index + 1, bits_per_entry);
        }
        let (word_index, bit_offset) = Self::bit_index(entry_index, bits_per_entry);
        let mask: u64 = Self::entry_mask(bits_per_entry);
        let offset: u64 = bit_offset as u64;
        let cleared: u64 = data[word_index] & !(mask << offset);
        data[word_index] = cleared | ((value & mask) << offset);
    }

    /// An entry of the packed words.
    pub fn packed_entry(data: &[u64], entry_index: usize, bits_per_entry: u8) -> (r: u64)
        requires
            1 <= bits_per_entry <= 64,
            packing::word_index(entry_index as int, bits_per_entry) < data@.len(),
        ensures
            r == packing::entry(data@, entry_index as int, bits_per_entry),
    {
        proof {
            packing::lemma_place(entry_index as int, entry_index + 1, bits_per_entry);
        }
        let (word_index, bit_offset) = Self::bit_index(entry_index, bits_per_entry);
        let mask: u64 = Self::entry_mask(bits_per_entry);
        (data[word_index] >> bit_offset as u64) & mask
    }

    /// Packs the 4096 entries of `data` anew, with another number of bits each.
    pub fn repack_packed_data(data: &[u64], old_bits_per_entry: u8, new_bits_per_entry: u8) -> (out:
        Vec<u64>)
        requires
            1 <= old_bits_per_entry <= 64,
            1 <= new_bits_per_entry <= 64,
            data@.len() >= packing::word_count(BLOCK_ENTRIES as int, old_bits_per_entry),
        ensures
            out@ == packing::pack(
                packing::unpack(data@, old_bits_per_entry, BLOCK_ENTRIES as nat),
                new_bits_per_entry,
            ),
    {
        let ghost entries = packing::unpack(data@, old_bits_per_entry, BLOCK_ENTRIES as nat);
        let ghost mut values = Seq::new(BLOCK_ENTRIES as nat, |k: int| 0u64);
        let mut out: Vec<u64> = Vec::new();
        out.resize(Self::packed_word_count(new_bits_per_entry), 0);
        proof {
            packing::lemma_pack_zeros(values, new_bits_per_entry);
            assert(out@ =~= packing::pack(values, new_bits_per_entry));
        }
        for i in 0..BLOCK_ENTRIES
            invariant
                1 <= old_bits_per_entry <= 64,
                1 <= new_bits_per_entry <= 64,
                data@.len() >= packing::word_count(BLOCK_ENTRIES as int, old_bits_per_entry),
                entries == packing::unpack(data@, old_bits_per_entry, BLOCK_ENTRIES as nat),
                values.len() == BLOCK_ENTRIES,
                forall|k: int| 0 <= k < i ==> values[k] == entries[k],
                out@ == packing::pack(values, new_bits_per_entry),
        {
            proof {
                packing::lemma_place(i as int, BLOCK_ENTRIES as int, old_bits_per_entry);
                packing::lemma_place(i as int, BLOCK_ENTRIES as int, new_bits_per_entry);
            }
            let value: u64 = Self::packed_entry(data, i, old_bits_per_entry);
            proof {
                packing::replace_then_pack(values, new_bits_per_entry, i as int, value);
                values = values.update(i as int, value);
            }
            Self::set_packed_entry(out.as_mut_slice(), i, new_bits_per_entry, value);
        }
        assert(values =~= entries);
        out
    }

    /// The word that an entry lies in, and its lowest bit there.
    pub fn bit_index(entry_index: usize, bits_per_entry: u8) -> (r: (usize, u8))
        requires
            1 <= bits_per_entry <= 64,
        ensures
            r.0 == packing::word_index(entry_index as int, bits_per_entry),
            r.1 == packing::bit_offset(entry_index as int, bits_per_entry),
    {
        proof {
            packing::lemma_per_word(bits_per_entry);
            packing::lemma_place(entry_index as int, entry_index + 1, bits_per_entry);
        }
        let entries_per_word: usize = Self::entries_per_word(bits_per_entry);
        let word_index: usize = entry_index / entries_per_word;
        let lane: usize = entry_index % entries_per_word;
        (word_index, (lane * bits_per_entry as usize) as u8)
    }

    /// The place of a block among the blocks of its section.
    pub fn entry_index(x: u8, y: u8, z: u8) -> (r: usize)
        ensures
            r == block_index(x as int, y as int, z as int),
    {
        y as usize * 256 + z as usize * 16 + x as usize
    }

    /// The number of words that the blocks of a section take.
    pub fn packed_word_count(bits_per_entry: u8) -> (r: usize)
        requires
            1 <= bits_per_entry <= 64,
        ensures
            r == packing::word_count(BLOCK_ENTRIES as int, bits_per_entry),
    {
        proof {
            packing::lemma_per_word(bits_per_entry);
        }
        let entries_per_word: usize = Self::entries_per_word(bits_per_entry);
        (BLOCK_ENTRIES + entries_per_word - 1) / entries_per_word
    }

    /// How many entries fit in one word.
    pub fn entries_per_word(bits_per_entry: u8) -> (r: usize)
        requires
            bits_per_entry > 0,
        ensures
            r == packing::per_word(bits_per_entry),
    {
        packing::entries_per_word(bits_per_entry)
    }

    /// The number of bits that the indices into a palette of the given length take.
    pub fn bits_required_for_palette_len(palette_len: usize) -> (r: u8)
        requires
            palette_len >= 2,
        ensures
            r == packing::bit_length((palette_len - 1) as nat),
            1 <= r <= 64,
    {
        packing::bits_required_for_value_range((palette_len - 1) as u64)
    }

    /// The lowest `bits_per_entry` bits, set.
    pub fn entry_mask(bits_per_entry: u8) -> (r: u64)
        requires
            1 <= bits_per_entry <= 64,
        ensures
            r == packing::mask(bits_per_entry),
    {
        packing::entry_mask(bits_per_entry)
    }
}

/// A palette in which nothing occurs twice has at most as many entries as there are block states.
pub proof fn lemma_palette_bound(palette: Seq<u16>)
    requires
        palette.no_duplicates(),
    ensures
        palette.len() <= 0x1_0000,
{
    let numbers = palette.map_values(|b: u16| b as int);
    let all = vstd::set_lib::set_int_range(0, 0x1_0000);
    assert(numbers.no_duplicates()) by {
        assert forall|i: int, j: int| 0 <= i < j < numbers.len() implies numbers[i] != numbers[j] by {
            assert(palette[i] != palette[j]);
        }
    }
    numbers.unique_seq_to_set();
    vstd::set_lib::lemma_int_range(0, 0x1_0000);
    assert(numbers.to_set().subset_of(all));
    vstd::set_lib::lemma_len_subset(numbers.to_set(), all);
}

proof fn lemma_unpack_indices(section: SectionView)
    requires
        section.well_formed(),
        section.shape is Indirect,
    ensures
        ({
            let bits = section.shape->bits;
            let values = indices(section.blocks, section.shape->palette);
            packing::unpack(packing::pack(values, bits), bits, BLOCK_ENTRIES as nat) == values
        }),
{
    let bits = section.shape->bits;
    let values = indices(section.blocks, section.shape->palette);
    let read = packing::unpack(packing::pack(values, bits), bits, BLOCK_ENTRIES as nat);
    assert forall|i: int| 0 <= i < BLOCK_ENTRIES implies #[trigger] read[i] == values[i] by {
        packing::lemma_place(i, BLOCK_ENTRIES as int, bits);
        lemma_index_entries(section, i);
    }
    assert(read =~= values);
}

} // verus!
