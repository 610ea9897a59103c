//! Packets that a client sends during the game. Floating-point values are given by their bits.
use vstd::prelude::*;
use vstd::string::StringExecFns;

use crate::cursor;
use crate::nonzero::NonZeroU32;
use crate::num;
use crate::serialize;
use crate::varint;
use crate::varint::VarInt;

verus! {

/// The complaint about a packet that ends too early.
pub open spec fn too_short(packet: Seq<char>) -> Seq<char> {
    "Failed to decode packet serverbound/minecraft:"@ + packet + ": Not enough bytes in buffer"@
}

/// The complaint about a packet that ends too early.
pub fn packet_too_short(packet: &str) -> (r: String)
    ensures
        r@ == too_short(packet@),
{
    let mut s = String::from_str("Failed to decode packet serverbound/minecraft:");
    s.append(packet);
    s.append(": Not enough bytes in buffer");
    s
}

/// The signed reading of a number below `2 * half`, whose upper half stands for the negative
/// numbers.
pub open spec fn sign_extended(n: int, half: int) -> int {
    if n < half {
        n
    } else {
        n - 2 * half
    }
}

/// The coordinates x, y and z in a packed block position.
pub open spec fn unpacked_position(packed: nat) -> (int, int, int) {
    (
        sign_extended(packed as int / 0x40_0000_0000, 0x200_0000),
        sign_extended(packed as int % 0x1000, 0x800),
        sign_extended((packed as int / 0x1000) % 0x400_0000, 0x200_0000),
    )
}

/// Unpacking gives back the coordinates that were packed, as long as x and z fit in 26 bits and y
/// in 12.
pub proof fn unpacking_inverts_packing(x: int, y: int, z: int)
    requires
        -0x200_0000 <= x < 0x200_0000,
        -0x800 <= y < 0x800,
        -0x200_0000 <= z < 0x200_0000,
    ensures
        unpacked_position(serialize::packed_position(x, y, z)) == (x, y, z),
{
    let (a, b, c) = (x % 0x400_0000, z % 0x400_0000, y % 0x1000);
    let packed = a * 0x40_0000_0000 + b * 0x1000 + c;
    assert(packed / 0x40_0000_0000 == a);
    assert(packed / 0x1000 == a * 0x400_0000 + b);
    assert((a * 0x400_0000 + b) % 0x400_0000 == b);
    assert(packed % 0x1000 == c);
}

/// The block position at place `at`, if it is all there.
pub open spec fn position_at(data: Seq<u8>, at: int) -> Option<(int, int, int)> {
    if at + 8 <= data.len() {
        Some(unpacked_position(num::be_value(data.subrange(at, at + 8))))
    } else {
        None
    }
}

/// Coordinates that were read fit in their bits.
pub proof fn positions_are_bounded(data: Seq<u8>, at: int)
    requires
        0 <= at,
    ensures
        position_at(data, at) matches Some((x, y, z)) ==> {
            &&& -0x200_0000 <= x < 0x200_0000
            &&& -0x800 <= y < 0x800
            &&& -0x200_0000 <= z < 0x200_0000
        },
{
    if at + 8 <= data.len() {
        num::be_read_write(data.subrange(at, at + 8));
        num::lemma_pow256_values();
    }
}

/// Reading a block position gives back the position that was written, as long as x and z fit in
/// 26 bits and y in 12.
pub proof fn position_round_trip(before: Seq<u8>, x: int, y: int, z: int, rest: Seq<u8>)
    requires
        -0x200_0000 <= x < 0x200_0000,
        -0x800 <= y < 0x800,
        -0x200_0000 <= z < 0x200_0000,
    ensures
        position_at(before + serialize::position(x, y, z) + rest, before.len() as int) == Some(
            (x, y, z),
        ),
{
    let data = before + serialize::position(x, y, z) + rest;
    let packed = serialize::packed_position(x, y, z);
    unpacking_inverts_packing(x, y, z);
    num::lemma_pow256_values();
    num::be_round_trip(packed, 8);
    let at = before.len() as int;
    assert(data.subrange(at, at + 8) =~= serialize::position(x, y, z));
}

/// The block position at place `cursor`, as x, y and z.
pub fn next_position(data: &[u8], cursor: usize, packet: &str) -> (r: Result<(i32, i16, i32), String>)
    ensures
        match r {
            Ok((x, y, z)) => position_at(data@, cursor as int) == Some(
                (x as int, y as int, z as int),
            ),
            Err(e) => position_at(data@, cursor as int) is None && e@ == too_short(packet@),
        },
{
    let bytes: &[u8] = match cursor::part(data, cursor, 8) {
        Some(bytes) => bytes,
        None => return Err(packet_too_short(packet)),
    };
    proof {
        num::be_read_write(bytes@);
        num::lemma_pow256_values();
    }
    let packed: u64 = num::read_be(bytes) as u64;
    let x: i32 = signed_26((packed / 0x40_0000_0000) as u32);
    let z: i32 = signed_26(((packed / 0x1000) % 0x400_0000) as u32);
    let low: i16 = (packed % 0x1000) as i16;
    let y: i16 = if low < 0x800 {
        low
    } else {
        low - 0x1000
    };
    Ok((x, y, z))
}

/// The signed reading of 26 bits.
fn signed_26(n: u32) -> (r: i32)
    requires
        n < 0x400_0000,
    ensures
        r == sign_extended(n as int, 0x200_0000),
{
    if n < 0x200_0000 {
        n as i32
    } else {
        n as i32 - 0x400_0000
    }
}

/// What a player does to a block.
#[verifier::ext_equal]
pub struct PlayerActionView {
    pub status: i32,
    pub position: (int, int, int),
    pub face: u8,
    pub sequence: i32,
}

/// The player action that `data` holds, or else a complaint.
pub open spec fn player_action(data: Seq<u8>) -> Result<PlayerActionView, Seq<char>> {
    let at = varint::size(data) as int;
    if !varint::complete(data) {
        Err("VarInt too big"@)
    } else if position_at(data, at) is None {
        Err(too_short("player_action"@))
    } else if at + 8 >= data.len() {
        Err("Unknown error"@)
    } else if !varint::complete(data.skip(at + 9)) {
        Err("VarInt too big"@)
    } else {
        Ok(
            PlayerActionView {
                status: varint::low_bits(data),
                position: position_at(data, at)->0,
                face: data[at + 8],
                sequence: varint::low_bits(data.skip(at + 9)),
            },
        )
    }
}

/// Reading a player action gives back what was written, as long as its position fits, whatever
/// follows it.
pub proof fn player_action_round_trip(action: PlayerActionView, rest: Seq<u8>)
    requires
        ({
            let (x, y, z) = action.position;
            &&& -0x200_0000 <= x < 0x200_0000
            &&& -0x800 <= y < 0x800
            &&& -0x200_0000 <= z < 0x200_0000
        }),
    ensures
        ({
            let (x, y, z) = action.position;
            player_action(
                varint::wire_i32(action.status) + serialize::position(x, y, z) + seq![action.face]
                    + varint::wire_i32(action.sequence) + rest,
            ) == Ok::<PlayerActionView, Seq<char>>(action)
        }),
{
    let (x, y, z) = action.position;
    let (a, b, c, d) = (
        varint::wire_i32(action.status),
        serialize::position(x, y, z),
        seq![action.face],
        varint::wire_i32(action.sequence),
    );
    let data = a + b + c + d + rest;
    num::lemma_be_bytes_len(serialize::packed_position(x, y, z), 8);
    assert(data =~= a + (b + c + d + rest));
    varint::decode_inverts_encode(action.status, b + c + d + rest);
    assert(data =~= a + b + (c + d + rest));
    position_round_trip(a, x, y, z, c + d + rest);
    assert(data.skip((a.len() + 9) as int) =~= d + rest);
    varint::decode_inverts_encode(action.sequence, rest);
}

/// What a player does to a block: a status, the block's position as x, y and z, the face, and the
/// number of the action.
pub fn decode_player_action(data: &[u8]) -> (r: Result<(i32, (i32, i16, i32), u8, i32), String>)
    ensures
        match r {
            Ok((status, (x, y, z), face, sequence)) => player_action(data@) == Ok::<
                PlayerActionView,
                Seq<char>,
            >(
                PlayerActionView {
                    status,
                    position: (x as int, y as int, z as int),
                    face,
                    sequence,
                },
            ),
            Err(e) => player_action(data@) == Err::<PlayerActionView, Seq<char>>(e@),
        },
{
    let (read, status) = VarInt::decode_strict(data);
    proof {
        varint::lemma_extent_bounds(data@, varint::MAX_LEN as nat);
    }
    let status: VarInt = match status {
        Some(status) => status,
        None => return Err(String::from_str("VarInt too big")),
    };
    let position: (i32, i16, i32) = match next_position(data, read, "player_action") {
        Ok(position) => position,
        Err(e) => return Err(e),
    };
    if read + 8 >= data.len() {
        return Err(String::from_str("Unknown error"));
    }
    let face: u8 = data[read + 8];
    let rest: &[u8] = match cursor::tail(data, read + 9) {
        Some(rest) => rest,
        None => return Err(packet_too_short("player_action")),
    };
    let (_, sequence) = VarInt::decode_strict(rest);
    let sequence: VarInt = match sequence {
        Some(sequence) => sequence,
        None => return Err(String::from_str("VarInt too big")),
    };
    Ok((status.value(), position, face, sequence.value()))
}

/// How a player uses an item on a block. The cursor is given by the bits of its coordinates.
#[verifier::ext_equal]
pub struct UseItemView {
    pub hand: i32,
    pub position: (int, int, int),
    pub face: i32,
    pub cursor: (nat, nat, nat),
    pub inside: bool,
    pub border_hit: bool,
    pub sequence: i32,
}

/// The use of an item that `data` holds, or else a complaint.
pub open spec fn use_item(data: Seq<u8>) -> Result<UseItemView, Seq<char>> {
    let at = varint::size(data) as int;
    let face = data.skip(at + 8);
    let next = at + 8 + varint::size(face);
    let tail = data.skip(next + 14);
    if !varint::complete(data) || position_at(data, at) is None || !varint::complete(face) || next
        + 14 > data.len() {
        Err(too_short("use_item_on"@))
    } else if !varint::complete(tail) {
        Err("VarInt too big"@)
    } else {
        Ok(
            UseItemView {
                hand: varint::low_bits(data),
                position: position_at(data, at)->0,
                face: varint::low_bits(face),
                cursor: (
                    num::be_value(data.subrange(next, next + 4)),
                    num::be_value(data.subrange(next + 4, next + 8)),
                    num::be_value(data.subrange(next + 8, next + 12)),
                ),
                inside: data[next + 12] != 0,
                border_hit: data[next + 13] != 0,
                sequence: varint::low_bits(tail),
            },
        )
    }
}

/// The wire form of the use of an item: where it is used, how, and the number of the action.
pub open spec fn use_item_wire(used: UseItemView) -> Seq<u8> {
    used_where(used) + used_how(used) + varint::wire_i32(used.sequence)
}

/// The hand, the block and its face.
pub open spec fn used_where(used: UseItemView) -> Seq<u8> {
    let (x, y, z) = used.position;
    varint::wire_i32(used.hand) + serialize::position(x, y, z) + varint::wire_i32(used.face)
}

/// The cursor, and the two flags.
pub open spec fn used_how(used: UseItemView) -> Seq<u8> {
    num::be_bytes(used.cursor.0, 4) + num::be_bytes(used.cursor.1, 4) + num::be_bytes(
        used.cursor.2,
        4,
    ) + serialize::flag(used.inside) + serialize::flag(used.border_hit)
}

/// Reading the use of an item gives back what was written, as long as its position fits, whatever
/// follows it.
pub proof fn use_item_round_trip(used: UseItemView, rest: Seq<u8>)
    requires
        ({
            let (x, y, z) = used.position;
            &&& -0x200_0000 <= x < 0x200_0000
            &&& -0x800 <= y < 0x800
            &&& -0x200_0000 <= z < 0x200_0000
        }),
        used.cursor.0 <= u32::MAX,
        used.cursor.1 <= u32::MAX,
        used.cursor.2 <= u32::MAX,
    ensures
        use_item(use_item_wire(used) + rest) == Ok::<UseItemView, Seq<char>>(used),
{
    let (x, y, z) = used.position;
    let end = varint::wire_i32(used.sequence) + rest;
    let tail = used_how(used) + end;
    let data = used_where(used) + tail;
    assert(use_item_wire(used) + rest =~= data);
    lemma_used_where(used, tail);
    lemma_used_how(used, used_where(used), end);
    lemma_number_reads(used.sequence, rest);
}

proof fn lemma_used_where(used: UseItemView, tail: Seq<u8>)
    requires
        ({
            let (x, y, z) = used.position;
            &&& -0x200_0000 <= x < 0x200_0000
            &&& -0x800 <= y < 0x800
            &&& -0x200_0000 <= z < 0x200_0000
        }),
    ensures
        ({
            let data = used_where(used) + tail;
            let at = varint::size(data) as int;
            let face = data.skip(at + 8);
            &&& varint::complete(data)
            &&& varint::low_bits(data) == used.hand
            &&& position_at(data, at) == Some(used.position)
            &&& varint::complete(face)
            &&& varint::low_bits(face) == used.face
            &&& at + 8 + varint::size(face) == used_where(used).len()
        }),
{
    let (x, y, z) = used.position;
    let (a, b, c) = (
        varint::wire_i32(used.hand),
        serialize::position(x, y, z),
        varint::wire_i32(used.face),
    );
    let data = used_where(used) + tail;
    num::lemma_be_bytes_len(serialize::packed_position(x, y, z), 8);
    assert(data =~= a + (b + (c + tail)));
    lemma_number_reads(used.hand, b + (c + tail));
    assert(data =~= a + b + (c + tail));
    position_round_trip(a, x, y, z, c + tail);
    assert(data.skip(a.len() as int + 8) =~= c + tail);
    lemma_number_reads(used.face, tail);
}

proof fn lemma_used_how(used: UseItemView, front: Seq<u8>, end: Seq<u8>)
    requires
        used.cursor.0 <= u32::MAX,
        used.cursor.1 <= u32::MAX,
        used.cursor.2 <= u32::MAX,
    ensures
        ({
            let data = front + (used_how(used) + end);
            let at = front.len() as int;
            &&& data.len() >= at + 14
            &&& num::be_value(data.subrange(at, at + 4)) == used.cursor.0
            &&& num::be_value(data.subrange(at + 4, at + 8)) == used.cursor.1
            &&& num::be_value(data.subrange(at + 8, at + 12)) == used.cursor.2
            &&& (data[at + 12] != 0) == used.inside
            &&& (data[at + 13] != 0) == used.border_hit
            &&& data.skip(at + 14) == end
        }),
{
    num::lemma_pow256_values();
    num::be_round_trip(used.cursor.0, 4);
    num::be_round_trip(used.cursor.1, 4);
    num::be_round_trip(used.cursor.2, 4);
    lemma_cuts(
        front,
        num::be_bytes(used.cursor.0, 4),
        num::be_bytes(used.cursor.1, 4),
        num::be_bytes(used.cursor.2, 4),
        serialize::flag(used.inside),
        serialize::flag(used.border_hit),
        end,
    );
}

proof fn lemma_cuts(
    front: Seq<u8>,
    d: Seq<u8>,
    e: Seq<u8>,
    f: Seq<u8>,
    g: Seq<u8>,
    h: Seq<u8>,
    end: Seq<u8>,
)
    requires
        d.len() == 4,
        e.len() == 4,
        f.len() == 4,
        g.len() == 1,
        h.len() == 1,
    ensures
        ({
            let data = front + (d + e + f + g + h + end);
            let at = front.len() as int;
            &&& data.len() >= at + 14
            &&& data.subrange(at, at + 4) == d
            &&& data.subrange(at + 4, at + 8) == e
            &&& data.subrange(at + 8, at + 12) == f
            &&& data[at + 12] == g[0]
            &&& data[at + 13] == h[0]
            &&& data.skip(at + 14) == end
        }),
{
    let data = front + (d + e + f + g + h + end);
    let at = front.len() as int;
    assert(data.subrange(at, at + 4) =~= d);
    assert(data.subrange(at + 4, at + 8) =~= e);
    assert(data.subrange(at + 8, at + 12) =~= f);
    assert(data.skip(at + 14) =~= end);
}

/// The four bytes at place `cursor` as a number: the bits of a floating-point value.
fn decode_float(data: &[u8], cursor: usize) -> (r: Result<u32, String>)
    ensures
        match r {
            Ok(bits) => cursor + 4 <= data@.len() && bits == num::be_value(
                data@.subrange(cursor as int, cursor + 4),
            ),
            Err(e) => cursor + 4 > data@.len() && e@ == too_short("use_item_on"@),
        },
{
    match cursor::part(data, cursor, 4) {
        Some(bytes) => {
            proof {
                num::be_read_write(bytes@);
                num::lemma_pow256_values();
            }
            Ok(num::read_be(bytes) as u32)
        },
        None => Err(packet_too_short("use_item_on")),
    }
}

/// How a player uses an item on a block: the hand, the block's position as x, y and z, the face,
/// the bits of the three coordinates of the cursor, whether the player is inside of the block,
/// whether they hit the world's border, and the number of the action.
pub fn decode_use_item_on(data: &[u8]) -> (r: Result<
    (i32, (i32, i16, i32), i32, u32, u32, u32, bool, bool, i32),
    String,
>)
    ensures
        match r {
            Ok((hand, (x, y, z), face, cx, cy, cz, inside, border_hit, sequence)) => use_item(data@)
                == Ok::<UseItemView, Seq<char>>(
                UseItemView {
                    hand,
                    position: (x as int, y as int, z as int),
                    face,
                    cursor: (cx as nat, cy as nat, cz as nat),
                    inside,
                    border_hit,
                    sequence,
                },
            ),
            Err(e) => use_item(data@) == Err::<UseItemView, Seq<char>>(e@),
        },
{
    let (read, hand) = VarInt::decode_strict(data);
    proof {
        varint::lemma_extent_bounds(data@, varint::MAX_LEN as nat);
    }
    let hand: VarInt = match hand {
        Some(hand) => hand,
        None => return Err(packet_too_short("use_item_on")),
    };
    let position: (i32, i16, i32) = match next_position(data, read, "use_item_on") {
        Ok(position) => position,
        Err(e) => return Err(e),
    };
    let rest: &[u8] = match cursor::tail(data, read + 8) {
        Some(rest) => rest,
        None => return Err(packet_too_short("use_item_on")),
    };
    let (face_read, face) = VarInt::decode_strict(rest);
    proof {
        varint::lemma_extent_bounds(rest@, varint::MAX_LEN as nat);
    }
    let face: VarInt = match face {
        Some(face) => face,
        None => return Err(packet_too_short("use_item_on")),
    };
    let total: usize = data.len();
    let read: usize = read + 8 + face_read;
    if total - read < 14 {
        return Err(packet_too_short("use_item_on"));
    }
    let cx: u32 = match decode_float(data, read) {
        Ok(v) => v,
        Err(e) => return Err(e),
    };
    let cy: u32 = match decode_float(data, read + 4) {
        Ok(v) => v,
        Err(e) => return Err(e),
    };
    let cz: u32 = match decode_float(data, read + 8) {
        Ok(v) => v,
        Err(e) => return Err(e),
    };
    let inside: bool = data[read + 12] != 0;
    let border_hit: bool = data[read + 13] != 0;
    let rest: &[u8] = match cursor::tail(data, read + 14) {
        Some(rest) => rest,
        None => return Err(packet_too_short("use_item_on")),
    };
    let (_, sequence) = VarInt::decode_strict(rest);
    let sequence: VarInt = match sequence {
        Some(sequence) => sequence,
        None => return Err(String::from_str("VarInt too big")),
    };
    Ok(
        (
            hand.value(),
            position,
            face.value(),
            cx,
            cy,
            cz,
            inside,
            border_hit,
            sequence.value(),
        ),
    )
}

/// Items in a slot: how many of which kind, with components to add and to remove.
pub struct SlotFormat {
    pub count: NonZeroU32,
    pub id: i32,
    pub components_to_add: Vec<(i32, Vec<u8>)>,
    pub components_to_remove: Vec<i32>,
}

/// The number and the kind of the items that `data` holds, `None` for no items, or else a
/// complaint.
pub open spec fn slot(data: Seq<u8>) -> Result<Option<(nat, i32)>, Seq<char>> {
    let count = num::twos32(varint::low_bits(data) as int);
    let id = data.skip(varint::size(data) as int);
    let add_count = id.skip(varint::size(id) as int);
    let remove_count = add_count.skip(varint::size(add_count) as int);
    if !varint::complete(data) {
        Err("VarInt too big"@)
    } else if count == 0 {
        Ok(None)
    } else if !varint::complete(id) || !varint::complete(add_count) || !varint::complete(
        remove_count,
    ) {
        Err("VarInt too big"@)
    } else {
        Ok(Some((count, varint::low_bits(id))))
    }
}

/// Reading items gives back the number and the kind that were written, with however many
/// components they are announced.
pub proof fn slot_round_trip(count: i32, id: i32, added: i32, removed: i32, rest: Seq<u8>)
    requires
        count != 0,
    ensures
        slot(
            varint::wire_i32(count) + varint::wire_i32(id) + varint::wire_i32(added)
                + varint::wire_i32(removed) + rest,
        ) == Ok::<Option<(nat, i32)>, Seq<char>>(Some((num::twos32(count as int), id))),
{
    let (a, b, c, d) = (
        varint::wire_i32(count),
        varint::wire_i32(id),
        varint::wire_i32(added),
        varint::wire_i32(removed),
    );
    let fourth = d + rest;
    let third = c + fourth;
    let second = b + third;
    assert(a + b + c + d + rest =~= a + second);
    lemma_number_reads(count, second);
    lemma_number_reads(id, third);
    lemma_number_reads(added, fourth);
    lemma_number_reads(removed, rest);
}

proof fn lemma_number_reads(v: i32, rest: Seq<u8>)
    ensures
        ({
            let data = varint::wire_i32(v) + rest;
            &&& varint::complete(data)
            &&& varint::low_bits(data) == v
            &&& varint::size(data) == varint::wire_i32(v).len()
            &&& data.skip(varint::size(data) as int) == rest
        }),
{
    varint::decode_inverts_encode(v, rest);
    let data = varint::wire_i32(v) + rest;
    assert(data.skip(varint::size(data) as int) =~= rest);
}

/// The number and the kind of decoded items.
pub open spec fn items_view(items: Option<SlotFormat>) -> Option<(nat, i32)> {
    match items {
        Some(items) => Some((items.count@, items.id)),
        None => None,
    }
}

/// Whether decoded items come without components, which are not looked at.
pub open spec fn bare(items: Option<SlotFormat>) -> bool {
    items matches Some(items) ==> {
        &&& items.components_to_add@.len() == 0
        &&& items.components_to_remove@.len() == 0
    }
}

/// The slot that a player in creative mode fills and the items that they fill it with, or else a
/// complaint.
pub open spec fn creative_slot(data: Seq<u8>) -> Result<(i16, Option<(nat, i32)>), Seq<char>> {
    if data.len() < 2 {
        Err(too_short("set_creative_mode_slot"@))
    } else {
        match slot(data.skip(2)) {
            Ok(items) => Ok((num::signed16(num::be_value(data.take(2)) as int), items)),
            Err(e) => Err(e),
        }
    }
}

/// The number at the head of `data`, and what follows it.
fn next_number(data: &[u8]) -> (r: Result<(i32, &[u8]), String>)
    ensures
        match r {
            Ok((n, rest)) => {
                &&& varint::complete(data@)
                &&& n == varint::low_bits(data@)
                &&& rest@ == data@.skip(varint::size(data@) as int)
            },
            Err(e) => !varint::complete(data@) && e@ == "VarInt too big"@,
        },
{
    let (read, n) = VarInt::decode_strict(data);
    proof {
        varint::lemma_extent_bounds(data@, varint::MAX_LEN as nat);
    }
    match (n, cursor::tail(data, read)) {
        (Some(n), Some(rest)) => Ok((n.value(), rest)),
        _ => Err(String::from_str("VarInt too big")),
    }
}

/// The items in a slot, `None` for no items. `_packet` is the packet that they are part of.
pub fn decode_slot(data: &[u8], _packet: &str) -> (r: Result<Option<SlotFormat>, String>)
    ensures
        match r {
            Ok(items) => slot(data@) == Ok::<Option<(nat, i32)>, Seq<char>>(items_view(items))
                && bare(items),
            Err(e) => slot(data@) == Err::<Option<(nat, i32)>, Seq<char>>(e@),
        },
{
    let (count, rest): (i32, &[u8]) = match next_number(data) {
        Ok(r) => r,
        Err(e) => return Err(e),
    };
    let count: NonZeroU32 = match NonZeroU32::new(num::i32_bits(count)) {
        Some(count) => count,
        None => return Ok(None),
    };
    let (id, rest): (i32, &[u8]) = match next_number(rest) {
        Ok(r) => r,
        Err(e) => return Err(e),
    };
    let (_, rest): (i32, &[u8]) = match next_number(rest) {
        Ok(r) => r,
        Err(e) => return Err(e),
    };
    match next_number(rest) {
        Ok(_) => Ok(
            Some(
                SlotFormat {
                    count,
                    id,
                    components_to_add: Vec::new(),
                    components_to_remove: Vec::new(),
                },
            ),
        ),
        Err(e) => Err(e),
    }
}

/// The slot of the inventory that a player in creative mode fills, and with what.
pub fn decode_set_creative_mode_slot(data: &[u8]) -> (r: Result<(i16, Option<SlotFormat>), String>)
    ensures
        match r {
            Ok((place, items)) => creative_slot(data@) == Ok::<
                (i16, Option<(nat, i32)>),
                Seq<char>,
            >((place, items_view(items))) && bare(items),
            Err(e) => creative_slot(data@) == Err::<(i16, Option<(nat, i32)>), Seq<char>>(e@),
        },
{
    let mut rest: &[u8] = data;
    let bytes: &[u8] = match cursor::consume_bytes(&mut rest, 2) {
        Some(bytes) => bytes,
        None => return Err(packet_too_short("set_creative_mode_slot")),
    };
    proof {
        num::be_read_write(bytes@);
        num::lemma_pow256_values();
    }
    let place: i16 = num::bits_i16(num::read_be(bytes) as u16);
    match decode_slot(rest, "set_creative_mode_slot") {
        Ok(items) => Ok((place, items)),
        Err(e) => Err(e),
    }
}

} // verus!
