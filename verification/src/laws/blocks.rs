//! Blocks of sections and chunks: where they are kept, and where a client finds them.
use vstd::prelude::*;

use crate::world::chunk;
use crate::world::palette;
use crate::world::section;

verus! {

/// A block that is placed in a chunk goes into the section of its height, at the place of its
/// coordinates. Every other section, and the light, stay as they are; so does the whole chunk if
/// the place is outside of it.
pub proof fn placed_at_its_height(chunk: chunk::ChunkView, x: int, y: int, z: int, state: u16)
    requires
        chunk.well_formed(),
    ensures
        ({
            let after = chunk.with_block(x, y, z, state);
            if 0 <= x < 16 && -64 <= y < 320 && 0 <= z < 16 {
                let s = (y + 64) / 16;
                &&& after.sections.len() == 24
                &&& forall|k: int|
                    0 <= k < 24 && k != s ==> #[trigger] after.sections[k] == chunk.sections[k]
                &&& after.sections[s].blocks == chunk.sections[s].blocks.update(
                    ((y + 64) % 16) * 256 + z * 16 + x,
                    state,
                )
                &&& after.sections[s].biomes == chunk.sections[s].biomes
                &&& after.skylight == chunk.skylight
                &&& after.blocklight == chunk.blocklight
            } else {
                after == chunk
            }
        }),
{
}

/// Filling a box of a chunk sets exactly the blocks between its corners, each in the section of
/// its height at the place of its coordinates.
pub proof fn filled_between_corners(
    chunk: chunk::ChunkView,
    from: (u8, i32, u8),
    to: (u8, i32, u8),
    state: u16,
    x: int,
    y: int,
    z: int,
)
    requires
        chunk.well_formed(),
        0 <= x < 16,
        -64 <= y < 320,
        0 <= z < 16,
    ensures
        ({
            let after = chunk.filled(chunk::chunk_cuboid(from, to), state);
            let s = (y + 64) / 16;
            let i = ((y + 64) % 16) * 256 + z * 16 + x;
            let inside = from.0 <= x < to.0 && from.1 <= y < to.1 && from.2 <= z < to.2;
            &&& after.sections.len() == 24
            &&& after.sections[s].blocks.len() == 4096
            &&& after.sections[s].blocks[i] == if inside {
                state
            } else {
                chunk.sections[s].blocks[i]
            }
            &&& after.skylight == chunk.skylight
            &&& after.blocklight == chunk.blocklight
        }),
{
    let s = (y + 64) / 16;
    let i = ((y + 64) % 16) * 256 + z * 16 + x;
    assert(chunk.sections[s].well_formed());
    assert(i % 16 == x && i / 256 == (y + 64) % 16 && (i / 16) % 16 == z);
    assert(-64 + 16 * s + i / 256 == y);
}

/// A block that is placed in a section goes to the place of its coordinates, and no other block
/// changes.
pub proof fn placed_in_section(section: section::SectionView, x: u8, y: u8, z: u8, state: u16)
    requires
        section.well_formed(),
        x < 16,
        y < 16,
        z < 16,
    ensures
        section.with_block(
            section::block_index(x as int, y as int, z as int),
            state,
        ).blocks == section.blocks.update(y * 256 + z * 16 + x, state),
{
}

/// Filling a box of a section sets exactly the blocks between its corners.
pub proof fn section_filled_between_corners(
    section: section::SectionView,
    from: (u8, u8, u8),
    to: (u8, u8, u8),
    state: u16,
    x: int,
    y: int,
    z: int,
)
    requires
        section.well_formed(),
        0 <= x < 16,
        0 <= y < 16,
        0 <= z < 16,
    ensures
        ({
            let after = section::filled(section, section::section_cuboid(from, to), 0, state);
            let i = y * 256 + z * 16 + x;
            let inside = from.0 <= x < to.0 && from.1 <= y < to.1 && from.2 <= z < to.2;
            after.blocks.len() == 4096 && after.blocks[i] == if inside {
                state
            } else {
                section.blocks[i]
            }
        }),
{
    let i = y * 256 + z * 16 + x;
    assert(i % 16 == x && i / 256 == y && (i / 16) % 16 == z);
}

/// Filling a box that holds no block of a section leaves the section as it is. Filling one that
/// holds some keeps states as placing one of those blocks would.
pub proof fn filling_keeps_states_as_placing_does(
    section: section::SectionView,
    from: (u8, u8, u8),
    to: (u8, u8, u8),
    state: u16,
    x: int,
    y: int,
    z: int,
)
    requires
        section.well_formed(),
    ensures
        ({
            let after = section::filled(section, section::section_cuboid(from, to), 0, state);
            &&& after.biomes == section.biomes
            &&& from.0 >= to.0 || from.1 >= to.1 || from.2 >= to.2 || from.0 >= 16 || from.1 >= 16
                || from.2 >= 16 ==> after == section
            &&& from.0 <= x < to.0 && from.1 <= y < to.1 && from.2 <= z < to.2 && x < 16 && y < 16
                && z < 16 ==> after.shape == section.with_block(y * 256 + z * 16 + x, state).shape
        }),
{
    let cuboid = section::section_cuboid(from, to);
    let after = section::filled(section, cuboid, 0, state);
    if from.0 >= to.0 || from.1 >= to.1 || from.2 >= to.2 || from.0 >= 16 || from.1 >= 16 || from.2
        >= 16 {
        assert forall|i: int| 0 <= i < 4096 implies !#[trigger] cuboid.holds_block(0, i) by {}
        assert(after.blocks =~= section.blocks);
    }
    if from.0 <= x < to.0 && from.1 <= y < to.1 && from.2 <= z < to.2 && x < 16 && y < 16 && z
        < 16 {
        let i = y * 256 + z * 16 + x;
        assert(i % 16 == x && i / 256 == y && (i / 16) % 16 == z);
        let chosen = |k: int| cuboid.holds_block(0, k);
        assert(chosen(i));
    }
}

/// A new chunk is air throughout, of biome 0, and dark.
pub proof fn new_chunks_are_air(s: int, i: int, l: int)
    requires
        0 <= s < 24,
        0 <= i < 4096,
        0 <= l < 26,
    ensures
        ({
            let chunk = chunk::empty_chunk();
            &&& chunk.sections.len() == 24
            &&& chunk.sections[s].blocks.len() == 4096
            &&& chunk.sections[s].blocks[i] == 0
            &&& chunk.sections[s].biomes == palette::ContainerView::<u8>::Single(0)
            &&& chunk.skylight.len() == 26
            &&& chunk.blocklight.len() == 26
            &&& chunk.skylight[l] == chunk::LightSection::Single(0)
            &&& chunk.blocklight[l] == chunk::LightSection::Single(0)
        }),
{
}

/// A section that is filled throughout has the one state everywhere, whatever it held.
pub proof fn filled_throughout(state: u16, biomes: palette::ContainerView<u8>, i: int)
    requires
        0 <= i < 4096,
    ensures
        section::uniform(state, biomes).blocks.len() == 4096,
        section::uniform(state, biomes).blocks[i] == state,
        section::uniform(state, biomes).biomes == biomes,
{
}

/// A state that a palette lacks comes at its end; the others keep their places. A section that had
/// one state has that one first.
pub proof fn palettes_grow_at_their_end(section: section::SectionView, i: int, state: u16)
    requires
        section.well_formed(),
        0 <= i < 4096,
    ensures
        ({
            let after = section.with_block(i, state).shape;
            match section.shape {
                section::Shape::Single => if section.blocks[0] == state {
                    after is Single
                } else {
                    after == (section::Shape::Indirect {
                        bits: 1,
                        palette: seq![section.blocks[0], state],
                    })
                },
                section::Shape::Indirect { bits, palette } => after is Indirect
                    && after->palette == if palette.contains(state) {
                    palette
                } else {
                    palette.push(state)
                },
                section::Shape::Direct => after is Direct,
            }
        }),
{
}

} // verus!
