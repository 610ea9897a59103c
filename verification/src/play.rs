//! The game of one player: what their packets do to them and to the world.
use vstd::prelude::*;
use vstd::string::StringExecFns;

use crate::clientbound;
use crate::codec;
use crate::codec::RawPacket;
use crate::num;
use crate::random;
use crate::serverbound;
use crate::serverbound::SlotFormat;
use crate::varint;
use crate::world::chunk;
use crate::world::level;
use crate::world::level::Level;

verus! {

/// What a slot of the inventory holds.
#[derive(Debug)]
pub enum Slot {
    Empty,
    Occupied { components: Vec<u8>, id: i32, count: u8 },
}

/// The contents of a slot.
#[verifier::ext_equal]
pub enum SlotView {
    Empty,
    Occupied { components: Seq<u8>, id: i32, count: u8 },
}

impl View for Slot {
    type V = SlotView;

    open spec fn view(&self) -> SlotView {
        match self {
            Slot::Empty => SlotView::Empty,
            Slot::Occupied { components, id, count } => SlotView::Occupied {
                components: components@,
                id: *id,
                count: *count,
            },
        }
    }
}

/// The number of slots in an inventory.
pub const INVENTORY_SIZE: usize = 46;

/// The first slot of the hotbar.
pub const HOTBAR_START: usize = 36;

/// The packets that a player's game reacts to.
pub const PLAYER_TICK: i32 = 0x0C;

pub const PLAYER_ACTION: i32 = 0x28;

pub const SET_CARRIED_ITEM: i32 = 0x34;

pub const SET_CREATIVE_MODE_SLOT: i32 = 0x37;

pub const USE_ITEM_ON: i32 = 0x3F;

/// A player in the game.
pub struct Player {
    inventory: Vec<Slot>,
    hotbar_slot: u16,
}

/// The slots of a player's inventory, and which slot of the hotbar they hold.
#[verifier::ext_equal]
pub struct PlayerView {
    pub inventory: Seq<SlotView>,
    pub hotbar_slot: u16,
}

impl View for Player {
    type V = PlayerView;

    closed spec fn view(&self) -> PlayerView {
        PlayerView {
            inventory: self.inventory@.map_values(|s: Slot| s@),
            hotbar_slot: self.hotbar_slot,
        }
    }
}

/// Why a game cannot go on.
#[derive(Debug, Clone, Copy, PartialEq, Eq, Structural)]
pub enum AbortReason {
    /// The held slot is not given by two bytes.
    CarriedItem,
    /// The held slot is not in the inventory.
    HotbarSlot,
    /// The held item stands for no block.
    UnknownItem,
    /// A block is placed in a chunk that is not loaded.
    UnloadedChunk,
}

/// What came of a packet.
#[derive(Debug)]
pub enum Reaction {
    /// These bytes are to be sent.
    KeepAlive(Vec<u8>),
    /// The block at this place was taken away.
    Mined { x: i32, y: i16, z: i32 },
    /// Nothing: the status of the action has no effect.
    MiningIgnored { status: i32 },
    /// Another slot is held.
    HeldSlotSet,
    /// Nothing: the items were thrown away.
    SlotIgnored,
    /// Nothing: there are no negative slots.
    SlotNegative,
    SlotEmptied { slot: i16 },
    SlotFilled { slot: i16, id: i32 },
    /// Nothing: there is no such slot.
    SlotOutOfBounds,
    /// A block was placed.
    Placed { x: i32, y: i16, z: i32, block: u16 },
    /// Nothing: the packet has no effect.
    Unknown { id: i32 },
    /// The game ends with a complaint.
    Failed(String),
    /// The game cannot go on.
    Abort(AbortReason),
}

/// What came of a packet.
#[verifier::ext_equal]
pub enum ReactionView {
    KeepAlive(Seq<u8>),
    Mined { x: i32, y: i16, z: i32 },
    MiningIgnored { status: i32 },
    HeldSlotSet,
    SlotIgnored,
    SlotNegative,
    SlotEmptied { slot: i16 },
    SlotFilled { slot: i16, id: i32 },
    SlotOutOfBounds,
    Placed { x: i32, y: i16, z: i32, block: u16 },
    Unknown { id: i32 },
    Failed(Seq<char>),
    Abort(AbortReason),
}

impl View for Reaction {
    type V = ReactionView;

    open spec fn view(&self) -> ReactionView {
        match self {
            Reaction::KeepAlive(bytes) => ReactionView::KeepAlive(bytes@),
            Reaction::Mined { x, y, z } => ReactionView::Mined { x: *x, y: *y, z: *z },
            Reaction::MiningIgnored { status } => ReactionView::MiningIgnored { status: *status },
            Reaction::HeldSlotSet => ReactionView::HeldSlotSet,
            Reaction::SlotIgnored => ReactionView::SlotIgnored,
            Reaction::SlotNegative => ReactionView::SlotNegative,
            Reaction::SlotEmptied { slot } => ReactionView::SlotEmptied { slot: *slot },
            Reaction::SlotFilled { slot, id } => ReactionView::SlotFilled { slot: *slot, id: *id },
            Reaction::SlotOutOfBounds => ReactionView::SlotOutOfBounds,
            Reaction::Placed { x, y, z, block } => ReactionView::Placed {
                x: *x,
                y: *y,
                z: *z,
                block: *block,
            },
            Reaction::Unknown { id } => ReactionView::Unknown { id: *id },
            Reaction::Failed(e) => ReactionView::Failed(e@),
            Reaction::Abort(reason) => ReactionView::Abort(*reason),
        }
    }
}

/// A player and a level after a packet, and what came of it.
#[verifier::ext_equal]
pub struct Outcome<T> {
    pub player: PlayerView,
    pub level: level::LevelView<T>,
    pub reaction: ReactionView,
}

/// A sixteenth of a coordinate, rounded towards zero.
pub open spec fn sixteenth_towards_zero(v: int) -> int {
    if v < 0 {
        -((-v) / 16)
    } else {
        v / 16
    }
}

/// The level with a block replaced in the chunk at `cell`. The place within the chunk is that of
/// the block within its own chunk.
pub open spec fn with_level_block<T>(
    level: level::LevelView<T>,
    cell: (i32, i32),
    x: int,
    y: int,
    z: int,
    state: u16,
) -> level::LevelView<T> {
    level::LevelView {
        chunks: level.chunks.insert(
            cell,
            level.chunks[cell].with_block(x % 16, y, z % 16, state),
        ),
        ..level
    }
}

/// Mining: a block is taken away when it starts or ends, if its chunk is loaded. The chunk is
/// found by rounding the coordinates towards zero.
pub open spec fn mine<T>(level: level::LevelView<T>, data: Seq<u8>) -> (
    level::LevelView<T>,
    ReactionView,
) {
    match serverbound::player_action(data) {
        Err(e) => (level, ReactionView::Failed(e)),
        Ok(action) => {
            let (x, y, z) = action.position;
            let cell = (sixteenth_towards_zero(x) as i32, sixteenth_towards_zero(z) as i32);
            if action.status != 0 && action.status != 2 {
                (level, ReactionView::MiningIgnored { status: action.status })
            } else if !level.chunks.contains_key(cell) {
                (level, ReactionView::Failed("Mined block in unloaded chunk"@))
            } else {
                (
                    with_level_block(level, cell, x, y, z, 0),
                    ReactionView::Mined { x: x as i32, y: y as i16, z: z as i32 },
                )
            }
        },
    }
}

/// Holding another slot of the hotbar, which two bytes give.
pub open spec fn hold(player: PlayerView, data: Seq<u8>) -> (PlayerView, ReactionView) {
    if data.len() == 2 {
        (
            PlayerView { hotbar_slot: num::be_value(data) as u16, ..player },
            ReactionView::HeldSlotSet,
        )
    } else {
        (player, ReactionView::Abort(AbortReason::CarriedItem))
    }
}

/// What a slot holds after it was filled: nothing if there are no items or if they are of kind
/// -1, else the items, counted by their low eight bits.
pub open spec fn filled_slot(items: Option<(nat, i32)>) -> SlotView {
    match items {
        Some((count, id)) => if id == -1 {
            SlotView::Empty
        } else {
            SlotView::Occupied { components: Seq::empty(), id, count: (count % 256) as u8 }
        },
        None => SlotView::Empty,
    }
}

/// Filling a slot of the inventory in creative mode.
pub open spec fn fill_slot(player: PlayerView, data: Seq<u8>) -> (PlayerView, ReactionView) {
    match serverbound::creative_slot(data) {
        Err(e) => (player, ReactionView::Failed(e)),
        Ok((slot, items)) => if slot == -1 {
            (player, ReactionView::SlotIgnored)
        } else if slot < 0 {
            (player, ReactionView::SlotNegative)
        } else if slot >= player.inventory.len() {
            (player, ReactionView::SlotOutOfBounds)
        } else {
            (
                PlayerView {
                    inventory: player.inventory.update(slot as int, filled_slot(items)),
                    ..player
                },
                match filled_slot(items) {
                    SlotView::Empty => ReactionView::SlotEmptied { slot },
                    SlotView::Occupied { components, id, count } => ReactionView::SlotFilled {
                        slot,
                        id,
                    },
                },
            )
        },
    }
}

/// The place next to a face of a block: below, above, north, south, west or east of it.
pub open spec fn neighbour(position: (int, int, int), face: i32) -> Option<(int, int, int)> {
    let (x, y, z) = position;
    if face == 0 {
        Some((x, y - 1, z))
    } else if face == 1 {
        Some((x, y + 1, z))
    } else if face == 2 {
        Some((x, y, z - 1))
    } else if face == 3 {
        Some((x, y, z + 1))
    } else if face == 4 {
        Some((x - 1, y, z))
    } else if face == 5 {
        Some((x + 1, y, z))
    } else {
        None
    }
}

/// The block that the held item stands for: air if there is none, else the low sixteen bits of
/// the entry for the item's kind.
pub open spec fn held_block(player: PlayerView, blockstates: Seq<u32>) -> Result<u16, AbortReason> {
    let slot = HOTBAR_START + player.hotbar_slot;
    if slot >= player.inventory.len() {
        Err(AbortReason::HotbarSlot)
    } else {
        match player.inventory[slot] {
            SlotView::Empty => Ok(0),
            SlotView::Occupied { components, id, count } => if 0 <= id < blockstates.len() {
                Ok((blockstates[id as int] % 0x1_0000) as u16)
            } else {
                Err(AbortReason::UnknownItem)
            },
        }
    }
}

/// Placing the block that the held item stands for next to a block.
pub open spec fn place<T>(
    player: PlayerView,
    level: level::LevelView<T>,
    data: Seq<u8>,
    blockstates: Seq<u32>,
) -> (level::LevelView<T>, ReactionView) {
    match serverbound::use_item(data) {
        Err(e) => (level, ReactionView::Failed(e)),
        Ok(used) => match neighbour(used.position, used.face) {
            None => (
                level,
                ReactionView::Failed("Invalid Face for VarInt Enum during Use Item On"@),
            ),
            Some((x, y, z)) => match held_block(player, blockstates) {
                Err(reason) => (level, ReactionView::Abort(reason)),
                Ok(block) => {
                    let cell = ((x / 16) as i32, (z / 16) as i32);
                    if !level.chunks.contains_key(cell) {
                        (level, ReactionView::Abort(AbortReason::UnloadedChunk))
                    } else {
                        (
                            with_level_block(level, cell, x, y, z, block),
                            ReactionView::Placed {
                                x: x as i32,
                                y: y as i16,
                                z: z as i32,
                                block,
                            },
                        )
                    }
                },
            },
        },
    }
}

/// What a packet does. `number` is the number that a keep-alive packet carries.
pub open spec fn outcome<T>(
    player: PlayerView,
    level: level::LevelView<T>,
    packet: codec::PacketView,
    blockstates: Seq<u32>,
    number: i64,
) -> Outcome<T> {
    if packet.id == PLAYER_TICK {
        Outcome {
            player,
            level,
            reaction: ReactionView::KeepAlive(
                codec::frame(
                    clientbound::KEEP_ALIVE,
                    num::be_bytes(num::twos64(number as int), 8),
                ),
            ),
        }
    } else if packet.id == PLAYER_ACTION {
        let (level, reaction) = mine(level, packet.data);
        Outcome { player, level, reaction }
    } else if packet.id == SET_CARRIED_ITEM {
        let (player, reaction) = hold(player, packet.data);
        Outcome { player, level, reaction }
    } else if packet.id == SET_CREATIVE_MODE_SLOT {
        let (player, reaction) = fill_slot(player, packet.data);
        Outcome { player, level, reaction }
    } else if packet.id == USE_ITEM_ON {
        let (level, reaction) = place(player, level, packet.data, blockstates);
        Outcome { player, level, reaction }
    } else {
        Outcome { player, level, reaction: ReactionView::Unknown { id: packet.id } }
    }
}

/// The block at a place in the world.
pub open spec fn block_at<T>(level: level::LevelView<T>, x: int, y: int, z: int) -> u16 {
    level.chunks[((x / 16) as i32, (z / 16) as i32)].block(x % 16, y, z % 16)
}

/// Whether a place in the world is in a loaded chunk.
pub open spec fn is_loaded<T>(level: level::LevelView<T>, x: int, y: int, z: int) -> bool {
    let cell = ((x / 16) as i32, (z / 16) as i32);
    &&& i32::MIN <= x <= i32::MAX
    &&& i32::MIN <= z <= i32::MAX
    &&& level.chunks.contains_key(cell)
    &&& level.chunks[cell].well_formed()
    &&& level.chunks[cell].holds(x % 16, y, z % 16)
}

/// Replacing a block in its own chunk changes the block at that place of the world, and no other.
pub proof fn replaced_block<T>(
    level: level::LevelView<T>,
    x: int,
    y: int,
    z: int,
    state: u16,
    a: int,
    b: int,
    c: int,
)
    requires
        is_loaded(level, x, y, z),
        is_loaded(level, a, b, c),
    ensures
        block_at(
            with_level_block(level, ((x / 16) as i32, (z / 16) as i32), x, y, z, state),
            a,
            b,
            c,
        ) == if (a, b, c) == (x, y, z) {
            state
        } else {
            block_at(level, a, b, c)
        },
{
    let cell = ((x / 16) as i32, (z / 16) as i32);
    if ((a / 16) as i32, (c / 16) as i32) == cell {
        chunk::place_then_read(
            level.chunks[cell],
            x % 16,
            y,
            z % 16,
            state,
            a % 16,
            b,
            c % 16,
        );
    }
}

/// A block that was mined is gone, and no other block changes. Rounding must not lead to another
/// chunk, as it does for most negative coordinates.
pub proof fn mined_block_is_gone<T>(
    level: level::LevelView<T>,
    data: Seq<u8>,
    a: int,
    b: int,
    c: int,
)
    requires
        serverbound::player_action(data) is Ok,
        ({
            let action = serverbound::player_action(data)->Ok_0;
            let (x, y, z) = action.position;
            &&& action.status == 0 || action.status == 2
            &&& is_loaded(level, x, y, z)
            &&& sixteenth_towards_zero(x) == x / 16
            &&& sixteenth_towards_zero(z) == z / 16
        }),
        is_loaded(level, a, b, c),
    ensures
        ({
            let position = serverbound::player_action(data)->Ok_0.position;
            let (after, _) = mine(level, data);
            block_at(after, a, b, c) == if (a, b, c) == position {
                0
            } else {
                block_at(level, a, b, c)
            }
        }),
{
    let (x, y, z) = serverbound::player_action(data)->Ok_0.position;
    replaced_block(level, x, y, z, 0, a, b, c);
}

/// A block that was placed is there, and no other block changes.
pub proof fn placed_block_is_there<T>(
    player: PlayerView,
    level: level::LevelView<T>,
    data: Seq<u8>,
    blockstates: Seq<u32>,
    a: int,
    b: int,
    c: int,
)
    requires
        serverbound::use_item(data) is Ok,
        held_block(player, blockstates) is Ok,
        ({
            let used = serverbound::use_item(data)->Ok_0;
            neighbour(used.position, used.face) matches Some((x, y, z)) && is_loaded(level, x, y, z)
        }),
        is_loaded(level, a, b, c),
    ensures
        ({
            let used = serverbound::use_item(data)->Ok_0;
            let (after, _) = place(player, level, data, blockstates);
            block_at(after, a, b, c) == if Some((a, b, c)) == neighbour(used.position, used.face) {
                held_block(player, blockstates)->Ok_0
            } else {
                block_at(level, a, b, c)
            }
        }),
{
    let used = serverbound::use_item(data)->Ok_0;
    let (x, y, z) = neighbour(used.position, used.face)->0;
    replaced_block(level, x, y, z, held_block(player, blockstates)->Ok_0, a, b, c);
}

/// A player who fills the slot of the hotbar that they hold places what the item stands for.
pub proof fn filled_slot_is_placed(player: PlayerView, data: Seq<u8>, blockstates: Seq<u32>)
    requires
        player.inventory.len() == INVENTORY_SIZE,
        serverbound::creative_slot(data) matches Ok((slot, Some((count, id)))) && {
            &&& slot == HOTBAR_START + player.hotbar_slot
            &&& slot < INVENTORY_SIZE
            &&& 0 <= id < blockstates.len()
        },
    ensures
        ({
            let (_, items) = serverbound::creative_slot(data)->Ok_0;
            let (_, id) = items->0;
            held_block(fill_slot(player, data).0, blockstates) == Ok::<u16, AbortReason>(
                (blockstates[id as int] % 0x1_0000) as u16,
            )
        }),
{
}

/// A sixteenth of a coordinate, rounded towards zero.
fn towards_zero(v: i32) -> (r: i32)
    requires
        v > i32::MIN,
    ensures
        r == sixteenth_towards_zero(v as int),
{
    if v < 0 {
        -((-v) / 16)
    } else {
        v / 16
    }
}

/// A sixteenth of a coordinate, rounded down, and what is left.
fn split_16(v: i32) -> (r: (i32, u8))
    requires
        -0x400_0000 <= v <= 0x400_0000,
    ensures
        r.0 == v as int / 16,
        r.1 == v as int % 16,
{
    let q: i32 = if v < 0 {
        -((15 - v) / 16)
    } else {
        v / 16
    };
    (q, (v - 16 * q) as u8)
}

impl Player {
    /// The inventory has all its slots.
    pub closed spec fn wf(&self) -> bool {
        self.inventory@.len() == INVENTORY_SIZE
    }

    /// A player with nothing in their inventory, who holds the first slot.
    pub fn new() -> (r: Self)
        ensures
            r.wf(),
            r@ == (PlayerView {
                inventory: Seq::new(INVENTORY_SIZE as nat, |i: int| SlotView::Empty),
                hotbar_slot: 0,
            }),
    {
        let mut inventory: Vec<Slot> = Vec::new();
        for i in 0..INVENTORY_SIZE
            invariant
                inventory@.len() == i,
                forall|k: int| 0 <= k < i ==> inventory@[k] == Slot::Empty,
        {
            inventory.push(Slot::Empty);
        }
        let r = Player { inventory, hotbar_slot: 0 };
        assert(r@.inventory =~= Seq::new(INVENTORY_SIZE as nat, |i: int| SlotView::Empty));
        r
    }

    /// What a slot of the inventory holds, if there is such a slot.
    pub fn slot(&self, i: usize) -> (r: Option<&Slot>)
        ensures
            match r {
                Some(s) => i < self@.inventory.len() && s@ == self@.inventory[i as int],
                None => i >= self@.inventory.len(),
            },
    {
        if i < self.inventory.len() {
            Some(&self.inventory[i])
        } else {
            None
        }
    }

    /// The slot of the hotbar that the player holds.
    pub fn hotbar_slot(&self) -> (r: u16)
        ensures
            r == self@.hotbar_slot,
    {
        self.hotbar_slot
    }

    /// Takes away a block.
    fn mine<T>(data: &[u8], level: &mut Level<T>) -> (r: Reaction)
        requires
            old(level).wf(),
        ensures
            final(level).wf(),
            mine(old(level)@, data@) == (final(level)@, r@),
    {
        let (status, (x, y, z), _, _): (i32, (i32, i16, i32), u8, i32) =
            match serverbound::decode_player_action(data) {
            Ok(action) => action,
            Err(e) => return Reaction::Failed(e),
        };
        if status != 0 && status != 2 {
            return Reaction::MiningIgnored { status };
        }
        proof {
            serverbound::positions_are_bounded(data@, varint::size(data@) as int);
        }
        let (_, cx) = split_16(x);
        let (_, cz) = split_16(z);
        match level.get_chunk_mut(towards_zero(x), towards_zero(z)) {
            Some(chunk) => {
                chunk.set_block(cx, y as i32, cz, 0);
                Reaction::Mined { x, y, z }
            },
            None => Reaction::Failed(String::from_str("Mined block in unloaded chunk")),
        }
    }

    /// Holds another slot of the hotbar.
    fn hold(&mut self, data: &[u8]) -> (r: Reaction)
        requires
            old(self).wf(),
        ensures
            final(self).wf(),
            hold(old(self)@, data@) == (final(self)@, r@),
    {
        if data.len() != 2 {
            return Reaction::Abort(AbortReason::CarriedItem);
        }
        proof {
            num::be_read_write(data@);
            num::lemma_pow256_values();
        }
        self.hotbar_slot = num::read_be(data) as u16;
        Reaction::HeldSlotSet
    }

    /// Fills a slot of the inventory.
    fn fill_slot(&mut self, data: &[u8]) -> (r: Reaction)
        requires
            old(self).wf(),
        ensures
            final(self).wf(),
            fill_slot(old(self)@, data@) == (final(self)@, r@),
    {
        let (slot, items): (i16, Option<SlotFormat>) =
            match serverbound::decode_set_creative_mode_slot(data) {
            Ok(decoded) => decoded,
            Err(e) => return Reaction::Failed(e),
        };
        if slot == -1 {
            return Reaction::SlotIgnored;
        }
        if slot < 0 {
            return Reaction::SlotNegative;
        }
        if slot as usize >= self.inventory.len() {
            return Reaction::SlotOutOfBounds;
        }
        let (content, reaction): (Slot, Reaction) = match items {
            Some(items) => {
                if items.id == -1 {
                    (Slot::Empty, Reaction::SlotEmptied { slot })
                } else {
                    let count: u8 = (items.count.get() % 256) as u8;
                    (
                        Slot::Occupied { components: Vec::new(), id: items.id, count },
                        Reaction::SlotFilled { slot, id: items.id },
                    )
                }
            },
            None => (Slot::Empty, Reaction::SlotEmptied { slot }),
        };
        let ghost view = content@;
        self.inventory[slot as usize] = content;
        assert(self@.inventory =~= old(self)@.inventory.update(slot as int, view));
        reaction
    }

    /// The block that the held item stands for.
    fn held_block(&self, blockstates: &[u32]) -> (r: Result<u16, AbortReason>)
        requires
            self.wf(),
        ensures
            r == held_block(self@, blockstates@),
    {
        let slot: usize = HOTBAR_START + self.hotbar_slot as usize;
        if slot >= self.inventory.len() {
            return Err(AbortReason::HotbarSlot);
        }
        assert(self@.inventory[slot as int] == self.inventory@[slot as int]@);
        match &self.inventory[slot] {
            Slot::Empty => Ok(0),
            Slot::Occupied { components: _, id, count: _ } => {
                if *id < 0 || *id as usize >= blockstates.len() {
                    Err(AbortReason::UnknownItem)
                } else {
                    Ok((blockstates[*id as usize] % 0x1_0000) as u16)
                }
            },
        }
    }

    /// Places the block that the held item stands for.
    fn place<T>(&self, data: &[u8], level: &mut Level<T>, blockstates: &[u32]) -> (r: Reaction)
        requires
            self.wf(),
            old(level).wf(),
        ensures
            final(level).wf(),
            place(self@, old(level)@, data@, blockstates@) == (final(level)@, r@),
    {
        let (_, (x, y, z), face, _, _, _, _, _, _) = match serverbound::decode_use_item_on(data) {
            Ok(used) => used,
            Err(e) => return Reaction::Failed(e),
        };
        proof {
            serverbound::positions_are_bounded(data@, varint::size(data@) as int);
        }
        let (x, y, z): (i32, i16, i32) = match face {
            0 => (x, y - 1, z),
            1 => (x, y + 1, z),
            2 => (x, y, z - 1),
            3 => (x, y, z + 1),
            4 => (x - 1, y, z),
            5 => (x + 1, y, z),
            _ => return Reaction::Failed(
                String::from_str("Invalid Face for VarInt Enum during Use Item On"),
            ),
        };
        let block: u16 = match self.held_block(blockstates) {
            Ok(block) => block,
            Err(reason) => return Reaction::Abort(reason),
        };
        let (chunk_x, cx) = split_16(x);
        let (chunk_z, cz) = split_16(z);
        match level.get_chunk_mut(chunk_x, chunk_z) {
            Some(chunk) => {
                chunk.set_block(cx, y as i32, cz, block);
                Reaction::Placed { x, y, z, block }
            },
            None => Reaction::Abort(AbortReason::UnloadedChunk),
        }
    }

    /// Does what a packet asks for. `number` is the number that a keep-alive packet carries.
    pub fn react<T>(
        &mut self,
        packet: &RawPacket,
        level: &mut Level<T>,
        blockstates: &[u32],
        number: i64,
    ) -> (r: Reaction)
        requires
            old(self).wf(),
            old(level).wf(),
        ensures
            final(self).wf(),
            final(level).wf(),
            outcome(old(self)@, old(level)@, packet@, blockstates@, number) == (Outcome {
                player: final(self)@,
                level: final(level)@,
                reaction: r@,
            }),
    {
        let id: i32 = packet.id.value();
        if id == PLAYER_TICK {
            Reaction::KeepAlive(clientbound::keep_alive_with_packet_id(number))
        } else if id == PLAYER_ACTION {
            Self::mine(packet.data.as_slice(), level)
        } else if id == SET_CARRIED_ITEM {
            self.hold(packet.data.as_slice())
        } else if id == SET_CREATIVE_MODE_SLOT {
            self.fill_slot(packet.data.as_slice())
        } else if id == USE_ITEM_ON {
            self.place(packet.data.as_slice(), level, blockstates)
        } else {
            Reaction::Unknown { id }
        }
    }

    /// Does what a packet asks for. A keep-alive packet carries a random number.
    pub fn receive<T>(
        &mut self,
        packet: &RawPacket,
        level: &mut Level<T>,
        blockstates: &[u32],
    ) -> (r: Reaction)
        requires
            old(self).wf(),
            old(level).wf(),
        ensures
            final(self).wf(),
            final(level).wf(),
            exists|number: i64| #[trigger]
                outcome(old(self)@, old(level)@, packet@, blockstates@, number) == (Outcome {
                    player: final(self)@,
                    level: final(level)@,
                    reaction: r@,
                }),
    {
        let number: i64 = if packet.id.value() == PLAYER_TICK {
            random::random_i64()
        } else {
            0
        };
        self.react(packet, level, blockstates, number)
    }
}

/// The number in the four bytes, least significant first.
pub open spec fn le_value(s: Seq<u8>) -> nat {
    (s[0] + 0x100 * s[1] + 0x1_0000 * s[2] + 0x100_0000 * s[3]) as nat
}

/// The number of kinds of items in a table of block states.
pub const ITEM_KINDS: usize = 1505;

/// The table of block states by kind of item, of which each takes four bytes, the least
/// significant first; `None` if there are not as many as there are kinds.
pub fn parse_blockstates(data: &[u8]) -> (r: Option<Vec<u32>>)
    ensures
        match r {
            Some(table) => {
                &&& data@.len() == 4 * ITEM_KINDS
                &&& table@.len() == ITEM_KINDS
                &&& forall|i: int|
                    0 <= i < ITEM_KINDS ==> #[trigger] table@[i] == le_value(
                        data@.subrange(4 * i, 4 * i + 4),
                    )
            },
            None => data@.len() != 4 * ITEM_KINDS,
        },
{
    if data.len() != 4 * ITEM_KINDS {
        return None;
    }
    let mut table: Vec<u32> = Vec::new();
    for i in 0..ITEM_KINDS
        invariant
            data@.len() == 4 * ITEM_KINDS,
            table@.len() == i,
            forall|k: int|
                0 <= k < i ==> #[trigger] table@[k] == le_value(
                    data@.subrange(4 * k, 4 * k + 4),
                ),
    {
        let at: usize = 4 * i;
        let value: u32 = data[at] as u32 + 0x100 * data[at + 1] as u32 + 0x1_0000 * data[at
            + 2] as u32 + 0x100_0000 * data[at + 3] as u32;
        table.push(value);
    }
    Some(table)
}

} // verus!
