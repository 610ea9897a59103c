//! Packets that the server sends during the game. Floating-point values are given by their bits.
use vstd::arithmetic::power2;
use vstd::bits;
use vstd::prelude::*;

use crate::codec;
use crate::num;
use crate::serialize;
use crate::serialize::Serialize;
use crate::varint;
use crate::varint::VarInt;

verus! {

/// The player takes no damage.
pub const INVUNERABLE: u8 = 0x01;

/// The player is flying.
pub const FLYING: u8 = 0x02;

/// The player may fly.
pub const ALLOW_FLYING: u8 = 0x04;

/// The player breaks blocks at once.
pub const CREATIVE: u8 = 0x08;

/// The parts of a player's position that are given relative to the present ones.
pub const RELATIVE_X: u32 = 0x0001;

pub const RELATIVE_Y: u32 = 0x0002;

pub const RELATIVE_Z: u32 = 0x0004;

pub const RELATIVE_YAW: u32 = 0x0008;

pub const RELATIVE_PITCH: u32 = 0x0010;

pub const RELATIVE_VELOCITY_X: u32 = 0x0020;

pub const RELATIVE_VELOCITY_Y: u32 = 0x0040;

pub const RELATIVE_VELOCITY_Z: u32 = 0x0080;

pub const ROTATE_VELOCITY: u32 = 0x0100;

/// The number of the keep-alive packet.
pub const KEEP_ALIVE: i32 = 0x2B;

/// An event in the game with a value.
pub fn game_event(event: u8, value: u32) -> (out: Vec<u8>)
    ensures
        out@ == seq![event] + num::be_bytes(value as nat, 4),
{
    let mut buf: Vec<u8> = vec![event];
    num::push_be(&mut buf, value as u128, 4);
    buf
}

/// What the player is able to do, how fast they fly and how wide they see.
pub fn player_abilities(flags: u8, flying_speed: u32, fov_modifier: u32) -> (out: Vec<u8>)
    ensures
        out@ == seq![flags] + num::be_bytes(flying_speed as nat, 4) + num::be_bytes(
            fov_modifier as nat,
            4,
        ),
{
    let mut buf: Vec<u8> = vec![flags];
    num::push_be(&mut buf, flying_speed as u128, 4);
    num::push_be(&mut buf, fov_modifier as u128, 4);
    buf
}

/// The slot that the player holds.
pub fn set_held_slot(slot: i32) -> (out: Vec<u8>)
    ensures
        out@ == varint::wire_i32(slot),
{
    slot.serialize()
}

/// No recipes.
pub fn update_recipes() -> (out: Vec<u8>)
    ensures
        out@ == seq![0u8, 0],
{
    vec![0, 0]
}

/// No metadata for the entity.
pub fn set_entity_metadata(eid: i32) -> (out: Vec<u8>)
    ensures
        out@ == varint::wire_i32(eid) + seq![0xFFu8],
{
    let mut buf = eid.serialize();
    buf.push(0xFF);
    assert(buf@ =~= varint::wire_i32(eid) + seq![0xFFu8]);
    buf
}

/// The packet between which others take effect at once.
pub fn bundle_delimiter() -> (out: Vec<u8>)
    ensures
        out@ == Seq::<u8>::empty(),
{
    Vec::new()
}

/// The chunk around which others are loaded.
pub fn set_chunk_cache_center(x: i32, z: i32) -> (out: Vec<u8>)
    ensures
        out@ == varint::wire_i32(x) + varint::wire_i32(z),
{
    let mut buf = x.serialize();
    serialize::push(&mut buf, &z);
    buf
}

/// `n` times the same bytes.
pub open spec fn repeated(unit: Seq<u8>, n: nat) -> Seq<u8>
    decreases n,
{
    if n == 0 {
        Seq::empty()
    } else {
        repeated(unit, (n - 1) as nat) + unit
    }
}

/// Appends `n` times the same bytes.
fn push_repeated(buf: &mut Vec<u8>, unit: &[u8], n: usize)
    ensures
        final(buf)@ == old(buf)@ + repeated(unit@, n as nat),
{
    for i in 0..n
        invariant
            buf@ == old(buf)@ + repeated(unit@, i as nat),
    {
        serialize::push_bytes(buf, unit);
        assert(buf@ =~= old(buf)@ + repeated(unit@, (i + 1) as nat));
    }
}

/// A section of one block state and one biome, with its number of blocks that are not air.
pub open spec fn plain_section(solid: u16, block: u8, biome: u8) -> Seq<u8> {
    num::be_bytes(solid as nat, 2) + seq![0u8, block, 0, biome]
}

/// The biome of a plain chunk.
pub const PLAIN_BIOME: u8 = 55;

/// A light section that is as bright as can be.
pub open spec fn full_light() -> Seq<u8> {
    Seq::new(2048, |i: int| 0xFFu8)
}

/// A set of one word with the lowest `n` bits set.
pub open spec fn full_bits(n: nat) -> Seq<u8> {
    seq![1u8] + num::be_bytes((power2::pow2(n) - 1) as nat, 8)
}

/// The wire form of a plain chunk: two sections of stone under air, all in the open sky.
pub open spec fn plain_chunk_wire(x: i32, z: i32) -> Seq<u8> {
    num::be_bytes(num::twos32(x as int), 4) + num::be_bytes(num::twos32(z as int), 4)
        + serialize::count(0) + serialize::count(144) + repeated(
        plain_section(0x1000, 1, PLAIN_BIOME),
        2,
    ) + repeated(plain_section(0, 0, PLAIN_BIOME), 22) + serialize::count(0) + full_bits(26) + seq![
        0u8,
    ] + seq![0u8] + full_bits(26) + serialize::count(26) + repeated(
        serialize::count(2048) + full_light(),
        26,
    ) + serialize::count(0)
}

proof fn lemma_each_byte(items: Seq<u8>)
    ensures
        serialize::each(items) == items,
    decreases items.len(),
{
    if items.len() > 0 {
        lemma_each_byte(items.drop_last());
        assert(items == items.drop_last() + seq![items.last()]);
    }
}

proof fn lemma_each_alike(items: Seq<[u8; 2048]>, unit: Seq<u8>)
    requires
        forall|i: int| 0 <= i < items.len() ==> (#[trigger] items[i]).wire() == unit,
    ensures
        serialize::each(items) == repeated(unit, items.len()),
    decreases items.len(),
{
    if items.len() > 0 {
        lemma_each_alike(items.drop_last(), unit);
    }
}

/// The part of a plain chunk that tells its blocks.
fn plain_sections() -> (out: Vec<u8>)
    ensures
        out@ == serialize::count(144) + repeated(plain_section(0x1000, 1, PLAIN_BIOME), 2)
            + repeated(plain_section(0, 0, PLAIN_BIOME), 22),
{
    let mut stone: Vec<u8> = Vec::new();
    num::push_be(&mut stone, 0x1000, 2);
    let mut rest: Vec<u8> = vec![0, 1, 0, PLAIN_BIOME];
    stone.append(&mut rest);
    let mut air: Vec<u8> = Vec::new();
    num::push_be(&mut air, 0, 2);
    let mut rest: Vec<u8> = vec![0, 0, 0, PLAIN_BIOME];
    air.append(&mut rest);
    proof {
        num::lemma_be_bytes_len(0x1000, 2);
        num::lemma_be_bytes_len(0, 2);
    }
    assert(stone@ =~= plain_section(0x1000, 1, PLAIN_BIOME));
    assert(air@ =~= plain_section(0, 0, PLAIN_BIOME));
    let mut buf: Vec<u8> = Vec::new();
    serialize::push_count(&mut buf, stone.len() + air.len() * 23);
    push_repeated(&mut buf, stone.as_slice(), 2);
    push_repeated(&mut buf, air.as_slice(), 22);
    buf
}

/// The part of a plain chunk that tells its light.
fn plain_light() -> (out: Vec<u8>)
    ensures
        out@ == full_bits(26) + seq![0u8] + seq![0u8] + full_bits(26) + serialize::count(26)
            + repeated(serialize::count(2048) + full_light(), 26) + serialize::count(0),
{
    let mut buf = full_bitset(26);
    buf.push(0);
    assert(buf@ =~= full_bits(26) + seq![0u8]);
    buf.push(0);
    assert(buf@ =~= full_bits(26) + seq![0u8] + seq![0u8]);
    let mut full = full_bitset(26);
    buf.append(&mut full);
    let sections = [light_section(); 26];
    serialize::push(&mut buf, &sections);
    proof {
        assert forall|i: int| 0 <= i < 26 implies (#[trigger] sections@[i]).wire()
            == serialize::count(2048) + full_light() by {
            lemma_each_byte(sections@[i]@);
        }
        lemma_each_alike(sections@, serialize::count(2048) + full_light());
    }
    serialize::push_count(&mut buf, 0);
    assert(buf@ =~= full_bits(26) + seq![0u8] + seq![0u8] + full_bits(26) + serialize::count(26)
        + repeated(serialize::count(2048) + full_light(), 26) + serialize::count(0));
    buf
}

/// A plain chunk at chunk coordinates `x` and `z`.
pub fn level_chunk_with_light(x: i32, z: i32) -> (out: Vec<u8>)
    ensures
        out@ == plain_chunk_wire(x, z),
{
    let mut buf: Vec<u8> = Vec::new();
    num::push_be(&mut buf, num::i32_bits(x) as u128, 4);
    num::push_be(&mut buf, num::i32_bits(z) as u128, 4);
    serialize::push_count(&mut buf, 0);
    let mut sections = plain_sections();
    buf.append(&mut sections);
    let block_entities: Vec<VarInt> = Vec::new();
    serialize::push(&mut buf, &block_entities);
    proof {
        assert(serialize::list(block_entities@) =~= serialize::count(0));
    }
    let mut light = plain_light();
    buf.append(&mut light);
    assert(buf@ =~= plain_chunk_wire(x, z));
    buf
}

/// A light section that is as bright as can be.
pub fn light_section() -> (out: [u8; 2048])
    ensures
        out@ == full_light(),
{
    let out = [0xFFu8; 2048];
    assert(out@ =~= full_light());
    out
}

/// A set of one word with the lowest `n` bits set.
pub fn full_bitset(bits: u32) -> (out: Vec<u8>)
    requires
        bits < 64,
    ensures
        out@ == full_bits(bits as nat),
{
    proof {
        bits::lemma_u64_pow2_no_overflow(bits as nat);
        bits::lemma_u64_shl_is_mul(1, bits as u64);
        power2::lemma_pow2_pos(bits as nat);
    }
    let mut buf: Vec<u8> = vec![1];
    num::push_be(&mut buf, ((1u64 << bits) - 1) as u128, 8);
    buf
}

/// A set without bits.
pub fn empty_bitset() -> (out: Vec<u8>)
    ensures
        out@ == seq![0u8],
{
    vec![0]
}

/// Where players appear.
pub fn set_default_spawn_position(
    dimension_name: String,
    location: (i32, i32, i16),
    yaw: u32,
    pitch: u32,
) -> (out: Vec<u8>)
    ensures
        out@ == serialize::text(dimension_name@) + serialize::position(
            location.0 as int,
            location.2 as int,
            location.1 as int,
        ) + num::be_bytes(yaw as nat, 4) + num::be_bytes(pitch as nat, 4),
{
    let mut buf = dimension_name.serialize();
    serialize::push(&mut buf, &location);
    num::push_be(&mut buf, yaw as u128, 4);
    num::push_be(&mut buf, pitch as u128, 4);
    buf
}

/// Where the player is, how they move and where they look.
pub fn player_position(
    tid: i32,
    x: u64,
    y: u64,
    z: u64,
    vx: u64,
    vy: u64,
    vz: u64,
    yaw: u32,
    pitch: u32,
    flags: u32,
) -> (out: Vec<u8>)
    ensures
        out@ == varint::wire_i32(tid) + num::be_bytes(x as nat, 8) + num::be_bytes(y as nat, 8)
            + num::be_bytes(z as nat, 8) + num::be_bytes(vx as nat, 8) + num::be_bytes(vy as nat, 8)
            + num::be_bytes(vz as nat, 8) + num::be_bytes(yaw as nat, 4) + num::be_bytes(
            pitch as nat,
            4,
        ) + num::be_bytes(flags as nat, 4),
{
    let mut buf = tid.serialize();
    num::push_be(&mut buf, x as u128, 8);
    num::push_be(&mut buf, y as u128, 8);
    num::push_be(&mut buf, z as u128, 8);
    num::push_be(&mut buf, vx as u128, 8);
    num::push_be(&mut buf, vy as u128, 8);
    num::push_be(&mut buf, vz as u128, 8);
    num::push_be(&mut buf, yaw as u128, 4);
    num::push_be(&mut buf, pitch as u128, 4);
    num::push_be(&mut buf, flags as u128, 4);
    buf
}

/// A number that the client sends back.
pub fn keep_alive(id: i64) -> (out: Vec<u8>)
    ensures
        out@ == num::be_bytes(num::twos64(id as int), 8),
{
    let mut buf: Vec<u8> = Vec::new();
    num::push_be(&mut buf, num::i64_bits(id) as u128, 8);
    buf
}

/// The whole keep-alive packet.
pub fn keep_alive_with_packet_id(id: i64) -> (out: Vec<u8>)
    ensures
        out@ == codec::frame(KEEP_ALIVE, num::be_bytes(num::twos64(id as int), 8)),
        out@.len() == 10,
{
    let mut buf: Vec<u8> = vec![0x09, 0x2b];
    num::push_be(&mut buf, num::i64_bits(id) as u128, 8);
    proof {
        num::lemma_be_bytes_len(num::twos64(id as int), 8);
        reveal_with_fuel(varint::wire, 2);
        assert(varint::wire_i32(KEEP_ALIVE) =~= seq![0x2Bu8]);
        assert(serialize::count(9) =~= seq![0x09u8]);
        assert(buf@ =~= codec::frame(KEEP_ALIVE, num::be_bytes(num::twos64(id as int), 8)));
    }
    buf
}

} // verus!
