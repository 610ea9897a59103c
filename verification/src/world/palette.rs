//! Paletted containers: one value for all entries, indices into a palette, or the values
//! themselves.
use vstd::prelude::*;

use crate::num;
use crate::serialize;
use crate::serialize::Serialize;
use crate::varint;
use crate::varint::VarInt;
use crate::world::packing;
use crate::world::section::ChunkSection;

verus! {

/// The entries of a section of a chunk.
#[derive(Debug)]
pub enum PalettedContainer<T> {
    /// Every entry has this value.
    Single(T),
    /// Every entry is the index of its value in the palette; the indices are packed.
    Indirect { bits_per_entry: u8, palette: Vec<T>, data: Vec<u64> },
    /// The values of the entries.
    Direct(Vec<T>),
}

/// Block states.
pub type BlockPalettedContainer = PalettedContainer<u16>;

/// Biomes.
pub type BiomePalettedContainer = PalettedContainer<u8>;

/// What a container holds.
#[verifier::ext_equal]
pub enum ContainerView<T> {
    Single(T),
    Indirect { bits: u8, palette: Seq<T>, data: Seq<u64> },
    Direct(Seq<T>),
}

impl<T> View for PalettedContainer<T> {
    type V = ContainerView<T>;

    open spec fn view(&self) -> ContainerView<T> {
        match self {
            PalettedContainer::Single(v) => ContainerView::Single(*v),
            PalettedContainer::Indirect { bits_per_entry, palette, data } => {
                ContainerView::Indirect { bits: *bits_per_entry, palette: palette@, data: data@ }
            },
            PalettedContainer::Direct(values) => ContainerView::Direct(values@),
        }
    }
}

/// The number of block entries in a section.
pub const BLOCK_ENTRIES: usize = 4096;

/// Block indices go out with at least this many bits.
pub const MIN_BLOCK_BITS: u8 = 4;

/// Block states that go out themselves take this many bits.
pub const DIRECT_BLOCK_BITS: u8 = 15;

/// The words, each in eight bytes.
pub open spec fn words_wire(data: Seq<u64>) -> Seq<u8>
    decreases data.len(),
{
    if data.len() == 0 {
        Seq::empty()
    } else {
        words_wire(data.drop_last()) + num::be_bytes(data.last() as nat, 8)
    }
}

/// One value for all entries: 0 bits per entry, then the value.
pub open spec fn single_wire(value: i32) -> Seq<u8> {
    seq![0u8] + varint::wire_i32(value)
}

/// Indices into a palette: the bits per entry, the palette as a list, the packed indices.
pub open spec fn indirect_wire(bits: u8, palette: Seq<VarInt>, data: Seq<u64>) -> Seq<u8> {
    seq![bits] + serialize::list(palette) + words_wire(data)
}

/// The values themselves: the bits per entry, the packed values.
pub open spec fn direct_wire(bits: u8, values: Seq<u64>) -> Seq<u8> {
    seq![bits] + words_wire(packing::pack(values, bits))
}

/// The greatest of the values, 0 if there is none.
pub open spec fn greatest(values: Seq<u64>) -> u64
    decreases values.len(),
{
    if values.len() == 0 {
        0
    } else if values.last() > greatest(values.drop_last()) {
        values.last()
    } else {
        greatest(values.drop_last())
    }
}

/// The words that block indices go out in: those of the container, repacked if its entries are
/// too narrow.
pub open spec fn block_wire_data(bits: u8, data: Seq<u64>) -> Seq<u64> {
    if bits < MIN_BLOCK_BITS {
        packing::pack(packing::unpack(data, bits, BLOCK_ENTRIES as nat), MIN_BLOCK_BITS)
    } else {
        data
    }
}

/// The wire form of block states.
pub open spec fn blocks_wire(container: ContainerView<u16>) -> Seq<u8> {
    match container {
        ContainerView::Single(v) => single_wire(v as i32),
        ContainerView::Indirect { bits, palette, data } => indirect_wire(
            if bits < MIN_BLOCK_BITS {
                MIN_BLOCK_BITS
            } else {
                bits
            },
            palette.map_values(|v: u16| VarInt(v as i32)),
            block_wire_data(bits, data),
        ),
        ContainerView::Direct(values) => direct_wire(
            DIRECT_BLOCK_BITS,
            values.map_values(|v: u16| v as u64),
        ),
    }
}

/// Block states have a wire form unless indices that are too narrow cannot be read: they have no
/// bits, or some are missing.
pub open spec fn blocks_have_wire(container: ContainerView<u16>) -> bool {
    match container {
        ContainerView::Indirect { bits, palette, data } => bits < MIN_BLOCK_BITS ==> {
            &&& bits > 0
            &&& data.len() >= packing::word_count(BLOCK_ENTRIES as int, bits)
        },
        _ => true,
    }
}

/// The wire form of biomes. Values that go out themselves take as many bits as the greatest one
/// needs.
pub open spec fn biomes_wire(container: ContainerView<u8>) -> Seq<u8> {
    match container {
        ContainerView::Single(v) => single_wire(v as i32),
        ContainerView::Indirect { bits, palette, data } => indirect_wire(
            if bits < 1 {
                1
            } else {
                bits
            },
            palette.map_values(|v: u8| VarInt(v as i32)),
            data,
        ),
        ContainerView::Direct(values) => {
            let wide = values.map_values(|v: u8| v as u64);
            let max = greatest(wide);
            direct_wire(
                if max == 0 {
                    1
                } else {
                    packing::bit_length(max as nat) as u8
                },
                wide,
            )
        },
    }
}

impl Serialize for BlockPalettedContainer {
    open spec fn wire(&self) -> Seq<u8> {
        blocks_wire(self@)
    }

    open spec fn has_wire(&self) -> bool {
        blocks_have_wire(self@)
    }

    fn serialize(&self) -> (out: Vec<u8>) {
        match self {
            PalettedContainer::Single(n) => serialize_single_paletted(*n as i32),
            PalettedContainer::Indirect { bits_per_entry, palette, data } => {
                serialize_block_indirect_paletted(
                    *bits_per_entry,
                    palette.as_slice(),
                    data.as_slice(),
                )
            },
            PalettedContainer::Direct(data) => {
                let mut values: Vec<u64> = Vec::new();
                for i in 0..data.len()
                    invariant
                        values@ == data@.take(i as int).map_values(|v: u16| v as u64),
                {
                    values.push(data[i] as u64);
                    assert(data@.take(i + 1) == data@.take(i as int).push(data@[i as int]));
                    assert(values@ =~= data@.take(i + 1).map_values(|v: u16| v as u64));
                }
                assert(data@.take(data@.len() as int) == data@);
                serialize_direct_paletted(DIRECT_BLOCK_BITS, values.as_slice())
            },
        }
    }
}

impl Serialize for BiomePalettedContainer {
    open spec fn wire(&self) -> Seq<u8> {
        biomes_wire(self@)
    }

    fn serialize(&self) -> (out: Vec<u8>) {
        match self {
            PalettedContainer::Single(n) => serialize_single_paletted(*n as i32),
            PalettedContainer::Indirect { bits_per_entry, palette, data } => {
                let mut entries: Vec<VarInt> = Vec::new();
                for i in 0..palette.len()
                    invariant
                        entries@ == palette@.take(i as int).map_values(|v: u8| VarInt(v as i32)),
                {
                    entries.push(VarInt::new(palette[i] as i32));
                    assert(palette@.take(i + 1) == palette@.take(i as int).push(palette@[i as int]));
                    assert(entries@ =~= palette@.take(i + 1).map_values(
                        |v: u8| VarInt(v as i32),
                    ));
                }
                assert(palette@.take(palette@.len() as int) == palette@);
                let bits: u8 = if *bits_per_entry < 1 {
                    1
                } else {
                    *bits_per_entry
                };
                serialize_indirect_paletted(bits, entries.as_slice(), data.as_slice())
            },
            PalettedContainer::Direct(data) => {
                let mut values: Vec<u64> = Vec::new();
                let mut max: u64 = 0;
                for i in 0..data.len()
                    invariant
                        values@ == data@.take(i as int).map_values(|v: u8| v as u64),
                        max == greatest(values@),
                {
                    let value: u64 = data[i] as u64;
                    let ghost before = values@;
                    values.push(value);
                    if value > max {
                        max = value;
                    }
                    assert(values@.drop_last() == before);
                    assert(data@.take(i + 1) == data@.take(i as int).push(data@[i as int]));
                    assert(values@ =~= data@.take(i + 1).map_values(|v: u8| v as u64));
                }
                assert(data@.take(data@.len() as int) == data@);
                let bits: u8 = packing::bits_required_for_value_range(max);
                serialize_direct_paletted(bits, values.as_slice())
            },
        }
    }
}

/// One value for all entries.
pub fn serialize_single_paletted(value: i32) -> (out: Vec<u8>)
    ensures
        out@ == single_wire(value),
{
    let mut out: Vec<u8> = vec![0];
    serialize::push(&mut out, &VarInt::new(value));
    out
}

/// Indices of block states into a palette, with at least four bits each.
pub fn serialize_block_indirect_paletted(bits_per_entry: u8, palette: &[u16], data: &[u64]) -> (out:
    Vec<u8>)
    requires
        blocks_have_wire(
            (ContainerView::Indirect { bits: bits_per_entry, palette: palette@, data: data@ }),
        ),
    ensures
        out@ == blocks_wire(
            (ContainerView::Indirect { bits: bits_per_entry, palette: palette@, data: data@ }),
        ),
{
    let mut entries: Vec<VarInt> = Vec::new();
    for i in 0..palette.len()
        invariant
            entries@ == palette@.take(i as int).map_values(|v: u16| VarInt(v as i32)),
    {
        entries.push(VarInt::new(palette[i] as i32));
        assert(palette@.take(i + 1) == palette@.take(i as int).push(palette@[i as int]));
        assert(entries@ =~= palette@.take(i + 1).map_values(|v: u16| VarInt(v as i32)));
    }
    assert(palette@.take(palette@.len() as int) == palette@);
    if bits_per_entry < MIN_BLOCK_BITS {
        let wire_data = ChunkSection::repack_packed_data(data, bits_per_entry, MIN_BLOCK_BITS);
        serialize_indirect_paletted(MIN_BLOCK_BITS, entries.as_slice(), wire_data.as_slice())
    } else {
        serialize_indirect_paletted(bits_per_entry, entries.as_slice(), data)
    }
}

/// Indices into a palette.
pub fn serialize_indirect_paletted(bits_per_entry: u8, palette: &[VarInt], data: &[u64]) -> (out:
    Vec<u8>)
    ensures
        out@ == indirect_wire(bits_per_entry, palette@, data@),
{
    let mut out: Vec<u8> = vec![bits_per_entry];
    serialize::push(&mut out, palette);
    let mut words = serialize_fixed_long_array(data);
    out.append(&mut words);
    out
}

/// The values themselves, of each its low `bits_per_entry` bits.
pub fn serialize_direct_paletted(bits_per_entry: u8, values: &[u64]) -> (out: Vec<u8>)
    requires
        1 <= bits_per_entry <= 64,
    ensures
        out@ == direct_wire(bits_per_entry, values@),
{
    let mut out: Vec<u8> = vec![bits_per_entry];
    let packed = packing::pack_entries(values, bits_per_entry);
    let mut words = serialize_fixed_long_array(packed.as_slice());
    out.append(&mut words);
    out
}

/// The words, each in eight bytes, without their number.
pub fn serialize_fixed_long_array(data: &[u64]) -> (out: Vec<u8>)
    ensures
        out@ == words_wire(data@),
{
    let mut out: Vec<u8> = Vec::new();
    for i in 0..data.len()
        invariant
            out@ == words_wire(data@.take(i as int)),
    {
        num::push_be(&mut out, data[i] as u128, 8);
        assert(data@.take(i + 1).drop_last() == data@.take(i as int));
    }
    assert(data@.take(data@.len() as int) == data@);
    out
}

} // verus!
