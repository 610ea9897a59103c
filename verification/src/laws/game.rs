//! What a player's packets do to the world and to their inventory.
use vstd::prelude::*;

use crate::clientbound;
use crate::codec;
use crate::laws::blocks;
use crate::num;
use crate::play;
use crate::serverbound;
use crate::varint;
use crate::world::level;

verus! {

/// Whether `after` is `before` with the one block at a place of the world set, and nothing else
/// changed: the chunk is that of the sixteenths `cell`, the section that of the height, and the
/// place in it that of the coordinates.
pub open spec fn one_block_set<T>(
    before: level::LevelView<T>,
    after: level::LevelView<T>,
    cell: (int, int),
    place: (int, int, int),
    state: u16,
) -> bool {
    let (x, y, z) = place;
    let key = (cell.0 as i32, cell.1 as i32);
    let (old_chunk, new_chunk) = (before.chunks[key], after.chunks[key]);
    let s = (y + 64) / 16;
    &&& after.tasks == before.tasks
    &&& after.time == before.time
    &&& after.seed == before.seed
    &&& forall|c: (i32, i32)| after.chunks.contains_key(c) <==> #[trigger]
        before.chunks.contains_key(c)
    &&& forall|c: (i32, i32)| c != key && before.chunks.contains_key(c) ==> #[trigger]
        after.chunks[c] == before.chunks[c]
    &&& new_chunk.skylight == old_chunk.skylight
    &&& new_chunk.blocklight == old_chunk.blocklight
    &&& new_chunk.sections.len() == old_chunk.sections.len()
    &&& if -64 <= y < 320 {
        &&& forall|k: int|
            0 <= k < 24 && k != s ==> #[trigger] new_chunk.sections[k] == old_chunk.sections[k]
        &&& new_chunk.sections[s].blocks == old_chunk.sections[s].blocks.update(
            ((y + 64) % 16) * 256 + (z % 16) * 16 + x % 16,
            state,
        )
    } else {
        new_chunk == old_chunk
    }
}

proof fn lemma_one_block_set<T>(
    before: level::LevelView<T>,
    cell: (int, int),
    place: (int, int, int),
    state: u16,
)
    requires
        before.chunks.contains_key((cell.0 as i32, cell.1 as i32)),
        before.chunks[(cell.0 as i32, cell.1 as i32)].well_formed(),
    ensures
        one_block_set(
            before,
            play::with_level_block(
                before,
                (cell.0 as i32, cell.1 as i32),
                place.0,
                place.1,
                place.2,
                state,
            ),
            cell,
            place,
            state,
        ),
{
    let (x, y, z) = place;
    let key = (cell.0 as i32, cell.1 as i32);
    blocks::placed_at_its_height(before.chunks[key], x % 16, y, z % 16, state);
}

/// The place next to face `face` of a block: below, above, north, south, west or east of it.
pub open spec fn beside(place: (int, int, int), face: int) -> (int, int, int) {
    (
        place.0 + if face == 4 {
            -1int
        } else if face == 5 {
            1
        } else {
            0
        },
        place.1 + if face == 0 {
            -1int
        } else if face == 1 {
            1
        } else {
            0
        },
        place.2 + if face == 2 {
            -1int
        } else if face == 3 {
            1
        } else {
            0
        },
    )
}

/// Using an item on a face of a block sets the block beside that face, and no other. It becomes
/// air if the held slot of the inventory is empty, else what the table has for the item.
pub proof fn used_items_are_placed_beside_the_face<T>(
    player: play::PlayerView,
    level: level::LevelView<T>,
    packet: codec::PacketView,
    used: serverbound::UseItemView,
    table: Seq<u32>,
    number: i64,
)
    requires
        packet.id == 0x3F,
        serverbound::use_item(packet.data) == Ok::<serverbound::UseItemView, Seq<char>>(used),
        0 <= used.face <= 5,
        player.inventory.len() == 46,
        player.hotbar_slot < 10,
        player.inventory[36 + player.hotbar_slot] matches play::SlotView::Occupied { id, .. } ==> 0
            <= id < table.len(),
        ({
            let (x, y, z) = beside(used.position, used.face as int);
            let key = ((x / 16) as i32, (z / 16) as i32);
            level.chunks.contains_key(key) && level.chunks[key].well_formed()
        }),
    ensures
        ({
            let after = play::outcome(player, level, packet, table, number);
            let (x, y, z) = beside(used.position, used.face as int);
            let state: u16 = match player.inventory[36 + player.hotbar_slot] {
                play::SlotView::Empty => 0,
                play::SlotView::Occupied { components, id, count } => (table[id as int]
                    % 0x1_0000) as u16,
            };
            &&& after.player == player
            &&& one_block_set(level, after.level, (x / 16, z / 16), (x, y, z), state)
            &&& after.reaction == (play::ReactionView::Placed {
                x: x as i32,
                y: y as i16,
                z: z as i32,
                block: state,
            })
        }),
{
    let (x, y, z) = beside(used.position, used.face as int);
    let state: u16 = match player.inventory[36 + player.hotbar_slot] {
        play::SlotView::Empty => 0,
        play::SlotView::Occupied { components, id, count } => (table[id as int]
            % 0x1_0000) as u16,
    };
    lemma_one_block_set(level, (x / 16, z / 16), (x, y, z), state);
}

/// A player with an empty hand who uses it on a face leaves air beside that face, in the chunk and
/// the section of that place.
pub proof fn empty_hands_place_air<T>(
    player: play::PlayerView,
    level: level::LevelView<T>,
    packet: codec::PacketView,
    used: serverbound::UseItemView,
    table: Seq<u32>,
    number: i64,
)
    requires
        packet.id == 0x3F,
        serverbound::use_item(packet.data) == Ok::<serverbound::UseItemView, Seq<char>>(used),
        0 <= used.face <= 5,
        player.inventory.len() == 46,
        player.hotbar_slot < 10,
        player.inventory[36 + player.hotbar_slot] is Empty,
        ({
            let (x, y, z) = beside(used.position, used.face as int);
            let key = ((x / 16) as i32, (z / 16) as i32);
            &&& level.chunks.contains_key(key)
            &&& level.chunks[key].well_formed()
            &&& -64 <= y < 320
        }),
    ensures
        ({
            let after = play::outcome(player, level, packet, table, number);
            let (x, y, z) = beside(used.position, used.face as int);
            let key = ((x / 16) as i32, (z / 16) as i32);
            let i = ((y + 64) % 16) * 256 + (z % 16) * 16 + x % 16;
            &&& after.level.chunks[key].sections[(y + 64) / 16].blocks[i] == 0
            &&& after.reaction matches play::ReactionView::Placed { block, .. }
            &&& block == 0
        }),
{
    used_items_are_placed_beside_the_face(player, level, packet, used, table, number);
    let (x, y, z) = beside(used.position, used.face as int);
    let key = ((x / 16) as i32, (z / 16) as i32);
    assert(level.chunks[key].sections[(y + 64) / 16].well_formed());
}

/// Using an item changes nothing if the packet is broken, the face is none of the six, the held
/// slot is not in the inventory, the item is not in the table or the chunk is not loaded; each has
/// its own answer.
pub proof fn items_that_cannot_be_placed<T>(
    player: play::PlayerView,
    level: level::LevelView<T>,
    packet: codec::PacketView,
    table: Seq<u32>,
    number: i64,
)
    requires
        packet.id == 0x3F,
        player.inventory.len() == 46,
    ensures
        ({
            let after = play::outcome(player, level, packet, table, number);
            let changed = after.player != player || after.level != level;
            match serverbound::use_item(packet.data) {
                Err(e) => !changed && after.reaction == play::ReactionView::Failed(e),
                Ok(used) => {
                    let (x, y, z) = beside(used.position, used.face as int);
                    let slot = player.inventory[36 + player.hotbar_slot];
                    if used.face < 0 || used.face > 5 {
                        !changed && after.reaction == play::ReactionView::Failed(
                            "Invalid Face for VarInt Enum during Use Item On"@,
                        )
                    } else if player.hotbar_slot >= 10 {
                        !changed && after.reaction == play::ReactionView::Abort(
                            play::AbortReason::HotbarSlot,
                        )
                    } else if slot matches play::SlotView::Occupied { id, .. } && !(0 <= id
                        < table.len()) {
                        !changed && after.reaction == play::ReactionView::Abort(
                            play::AbortReason::UnknownItem,
                        )
                    } else if !level.chunks.contains_key(((x / 16) as i32, (z / 16) as i32)) {
                        !changed && after.reaction == play::ReactionView::Abort(
                            play::AbortReason::UnloadedChunk,
                        )
                    } else {
                        after.reaction is Placed
                    }
                },
            }
        }),
{
}

/// A coordinate divided by sixteen with the remainder dropped: towards zero.
pub open spec fn sixteenth(v: int) -> int {
    if v >= 0 {
        v / 16
    } else {
        -((-v) / 16)
    }
}

/// Starting or ending to mine a block sets it to air in the chunk that its coordinates, divided by
/// sixteen and rounded towards zero, lead to, and changes nothing else.
pub proof fn mined_blocks_become_air<T>(
    player: play::PlayerView,
    level: level::LevelView<T>,
    packet: codec::PacketView,
    action: serverbound::PlayerActionView,
    table: Seq<u32>,
    number: i64,
)
    requires
        packet.id == 0x28,
        serverbound::player_action(packet.data) == Ok::<
            serverbound::PlayerActionView,
            Seq<char>,
        >(action),
        action.status == 0 || action.status == 2,
        ({
            let (x, y, z) = action.position;
            let key = (sixteenth(x) as i32, sixteenth(z) as i32);
            level.chunks.contains_key(key) && level.chunks[key].well_formed()
        }),
    ensures
        ({
            let after = play::outcome(player, level, packet, table, number);
            let (x, y, z) = action.position;
            &&& after.player == player
            &&& one_block_set(
                level,
                after.level,
                (sixteenth(x), sixteenth(z)),
                action.position,
                0,
            )
            &&& after.reaction == (play::ReactionView::Mined {
                x: x as i32,
                y: y as i16,
                z: z as i32,
            })
        }),
{
    let (x, y, z) = action.position;
    lemma_one_block_set(level, (sixteenth(x), sixteenth(z)), action.position, 0);
}

/// Mining changes nothing if the packet is broken, the status is neither start nor end, or the
/// chunk is not loaded; each has its own answer.
pub proof fn blocks_that_cannot_be_mined<T>(
    player: play::PlayerView,
    level: level::LevelView<T>,
    packet: codec::PacketView,
    table: Seq<u32>,
    number: i64,
)
    requires
        packet.id == 0x28,
    ensures
        ({
            let after = play::outcome(player, level, packet, table, number);
            let changed = after.player != player || after.level != level;
            match serverbound::player_action(packet.data) {
                Err(e) => !changed && after.reaction == play::ReactionView::Failed(e),
                Ok(action) => {
                    let (x, y, z) = action.position;
                    if action.status != 0 && action.status != 2 {
                        !changed && after.reaction == (play::ReactionView::MiningIgnored {
                            status: action.status,
                        })
                    } else if !level.chunks.contains_key(
                        (sixteenth(x) as i32, sixteenth(z) as i32),
                    ) {
                        !changed && after.reaction == play::ReactionView::Failed(
                            "Mined block in unloaded chunk"@,
                        )
                    } else {
                        after.reaction is Mined
                    }
                },
            }
        }),
{
}

/// Two bytes choose the slot of the hotbar that is held, the first one counting 256 times; any
/// other number of bytes ends the game. Nothing else changes.
pub proof fn two_bytes_choose_the_held_slot<T>(
    player: play::PlayerView,
    level: level::LevelView<T>,
    packet: codec::PacketView,
    table: Seq<u32>,
    number: i64,
)
    requires
        packet.id == 0x34,
    ensures
        ({
            let after = play::outcome(player, level, packet, table, number);
            &&& after.level == level
            &&& after.player.inventory == player.inventory
            &&& if packet.data.len() == 2 {
                &&& after.player.hotbar_slot == packet.data[0] * 256 + packet.data[1]
                &&& after.reaction is HeldSlotSet
            } else {
                &&& after.player == player
                &&& after.reaction == play::ReactionView::Abort(play::AbortReason::CarriedItem)
            }
        }),
{
    if packet.data.len() == 2 {
        reveal_with_fuel(num::be_value, 3);
        let d = packet.data;
        assert(d.drop_last().last() == d[0]);
        assert(d.drop_last().drop_last().len() == 0);
    }
}

proof fn lemma_place_number(hi: u8, lo: u8)
    ensures
        num::be_value(seq![hi, lo]) == hi * 256 + lo,
{
    reveal_with_fuel(num::be_value, 3);
    let d = seq![hi, lo];
    assert(d.drop_last().last() == hi);
    assert(d.drop_last().drop_last().len() == 0);
}

proof fn lemma_slot_number(hi: u8, lo: u8)
    ensures
        num::signed16(hi * 256 + lo) == if hi < 128 {
            hi * 256 + lo
        } else {
            hi * 256 + lo - 0x1_0000
        },
{
}

proof fn lemma_slot_read(hi: u8, lo: u8, bytes: Seq<u8>, items: Option<(nat, i32)>)
    requires
        serverbound::slot(bytes) == Ok::<Option<(nat, i32)>, Seq<char>>(items),
    ensures
        serverbound::creative_slot(seq![hi, lo] + bytes) == Ok::<
            (i16, Option<(nat, i32)>),
            Seq<char>,
        >((num::signed16(hi * 256 + lo), items)),
{
    let data = seq![hi, lo] + bytes;
    lemma_place_number(hi, lo);
    assert(data.skip(2) =~= bytes);
    assert(data.take(2) =~= seq![hi, lo]);
}

proof fn lemma_slot_set<T>(
    player: play::PlayerView,
    level: level::LevelView<T>,
    packet: codec::PacketView,
    slot: i16,
    items: Option<(nat, i32)>,
    table: Seq<u32>,
    number: i64,
)
    requires
        packet.id == 0x37,
        serverbound::creative_slot(packet.data) == Ok::<(i16, Option<(nat, i32)>), Seq<char>>(
            (slot, items),
        ),
    ensures
        ({
            let after = play::outcome(player, level, packet, table, number);
            let filled = play::filled_slot(items);
            &&& after.level == level
            &&& after.player.hotbar_slot == player.hotbar_slot
            &&& if 0 <= slot < player.inventory.len() {
                &&& after.player.inventory == player.inventory.update(slot as int, filled)
                &&& after.reaction == match filled {
                    play::SlotView::Empty => play::ReactionView::SlotEmptied { slot },
                    play::SlotView::Occupied { components, id, count } => {
                        play::ReactionView::SlotFilled { slot, id }
                    },
                }
            } else {
                &&& after.player == player
                &&& after.reaction == if slot == -1 {
                    play::ReactionView::SlotIgnored
                } else if slot < 0 {
                    play::ReactionView::SlotNegative
                } else {
                    play::ReactionView::SlotOutOfBounds
                }
            }
        }),
{
}

/// Filling a slot in creative mode sets that slot of the 46, and nothing else: to the items,
/// counted by their low eight bits, or to nothing if the items are of kind -1. A slot past the last
/// is ignored, and so are negative ones, of which -1 means to throw the items away.
#[verifier::spinoff_prover]
#[verifier::rlimit(30)]
pub proof fn creative_slots_are_filled<T>(
    player: play::PlayerView,
    level: level::LevelView<T>,
    packet: codec::PacketView,
    hi: u8,
    lo: u8,
    bytes: Seq<u8>,
    count: nat,
    id: i32,
    table: Seq<u32>,
    number: i64,
)
    requires
        player.inventory.len() == 46,
        packet.id == 0x37,
        packet.data == seq![hi, lo] + bytes,
        serverbound::slot(bytes) == Ok::<Option<(nat, i32)>, Seq<char>>(Some((count, id))),
    ensures
        ({
            let after = play::outcome(player, level, packet, table, number);
            let slot = hi * 256 + lo;
            &&& after.level == level
            &&& after.player.hotbar_slot == player.hotbar_slot
            &&& if slot < 46 {
                &&& after.player.inventory == player.inventory.update(
                    slot,
                    if id == -1 {
                        play::SlotView::Empty
                    } else {
                        play::SlotView::Occupied {
                            components: Seq::empty(),
                            id,
                            count: (count % 256) as u8,
                        }
                    },
                )
                &&& after.reaction == if id == -1 {
                    play::ReactionView::SlotEmptied { slot: slot as i16 }
                } else {
                    play::ReactionView::SlotFilled { slot: slot as i16, id }
                }
            } else {
                &&& after.player == player
                &&& after.reaction == if slot == 0xFFFF {
                    play::ReactionView::SlotIgnored
                } else if slot >= 0x8000 {
                    play::ReactionView::SlotNegative
                } else {
                    play::ReactionView::SlotOutOfBounds
                }
            }
        }),
{
    let slot = num::signed16(hi * 256 + lo);
    lemma_slot_number(hi, lo);
    lemma_slot_read(hi, lo, bytes, Some((count, id)));
    lemma_slot_set(player, level, packet, slot, Some((count, id)), table, number);
}

/// Filling a slot in creative mode with no items empties it.
pub proof fn creative_slots_are_emptied<T>(
    player: play::PlayerView,
    level: level::LevelView<T>,
    packet: codec::PacketView,
    hi: u8,
    lo: u8,
    rest: Seq<u8>,
    table: Seq<u32>,
    number: i64,
)
    requires
        player.inventory.len() == 46,
        hi * 256 + lo < 46,
        packet.id == 0x37,
        packet.data == seq![hi, lo, 0] + rest,
    ensures
        ({
            let after = play::outcome(player, level, packet, table, number);
            let slot = hi * 256 + lo;
            &&& after.level == level
            &&& after.player.hotbar_slot == player.hotbar_slot
            &&& after.player.inventory == player.inventory.update(slot, play::SlotView::Empty)
            &&& after.reaction == (play::ReactionView::SlotEmptied { slot: slot as i16 })
        }),
{
    let bytes = varint::wire_i32(0) + rest;
    assert(serverbound::slot(bytes) == Ok::<Option<(nat, i32)>, Seq<char>>(None)) by {
        varint::decode_inverts_encode(0, rest);
    }
    assert(packet.data =~= seq![hi, lo] + bytes) by {
        reveal_with_fuel(varint::wire, 2);
        assert(varint::wire_i32(0) =~= seq![0u8]);
    }
    lemma_slot_read(hi, lo, bytes, None);
    lemma_slot_set(player, level, packet, num::signed16(hi * 256 + lo), None, table, number);
}

/// A tick of the client is answered with the ten bytes of a keep-alive packet: its length, its
/// packet number and the number that it carries. Nothing changes.
pub proof fn client_ticks_are_answered<T>(
    player: play::PlayerView,
    level: level::LevelView<T>,
    packet: codec::PacketView,
    table: Seq<u32>,
    number: i64,
)
    requires
        packet.id == 0x0C,
    ensures
        ({
            let after = play::outcome(player, level, packet, table, number);
            &&& after.player == player
            &&& after.level == level
            &&& after.reaction matches play::ReactionView::KeepAlive(bytes)
            &&& bytes.len() == 10
            &&& bytes[0] == 9
            &&& bytes[1] == 0x2B
            &&& (num::be_value(bytes.skip(2)) - number) % 0x1_0000_0000_0000_0000 == 0
        }),
{
    let n = num::twos64(number as int);
    num::lemma_pow256_values();
    num::be_round_trip(n, 8);
    reveal_with_fuel(varint::wire, 2);
    assert(varint::wire_i32(0x2B) =~= seq![0x2Bu8]);
    assert(varint::wire_i32(9) =~= seq![9u8]);
    let bytes = codec::frame(clientbound::KEEP_ALIVE, num::be_bytes(n, 8));
    assert(bytes =~= seq![9u8, 0x2B] + num::be_bytes(n, 8));
    assert(bytes.skip(2) =~= num::be_bytes(n, 8));
}

/// Only mining and using items change the world, and of it only chunks; only choosing and filling
/// slots change the player. A packet of any other number changes nothing.
pub proof fn each_packet_changes_its_own<T>(
    player: play::PlayerView,
    level: level::LevelView<T>,
    packet: codec::PacketView,
    table: Seq<u32>,
    number: i64,
)
    ensures
        ({
            let after = play::outcome(player, level, packet, table, number);
            &&& packet.id != 0x28 && packet.id != 0x3F ==> after.level == level
            &&& packet.id != 0x34 && packet.id != 0x37 ==> after.player == player
            &&& after.level.tasks == level.tasks
            &&& after.level.time == level.time
            &&& after.level.seed == level.seed
            &&& after.player.inventory.len() == player.inventory.len()
            &&& packet.id != 0x0C && packet.id != 0x28 && packet.id != 0x34 && packet.id != 0x37
                && packet.id != 0x3F ==> after.reaction == (play::ReactionView::Unknown {
                id: packet.id,
            })
        }),
{
}

/// An inventory has 46 slots, of which the hotbar starts at 36, and the table has 1505 entries.
pub proof fn inventories_and_tables_have_their_sizes()
    ensures
        play::INVENTORY_SIZE == 46,
        play::HOTBAR_START == 36,
        play::ITEM_KINDS == 1505,
{
}

/// The number of four bytes of the table of block states is read with its lowest byte first.
pub proof fn tables_have_the_lowest_byte_first(s: Seq<u8>)
    requires
        s.len() == 4,
    ensures
        play::le_value(s) % 0x100 == s[0],
        (play::le_value(s) / 0x100) % 0x100 == s[1],
        (play::le_value(s) / 0x1_0000) % 0x100 == s[2],
        play::le_value(s) / 0x100_0000 == s[3],
{
}

} // verus!
