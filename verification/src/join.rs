//! How a player enters the game: the packets that they are sent, and the chunks around them.
use vstd::prelude::*;

use crate::clientbound;
use crate::codec;
use crate::config::{Settings, WorldConfig};
use crate::login;
use crate::num;
use crate::seed;
use crate::serialize;
use crate::varint;
use crate::world::chunk;
use crate::world::chunk::LevelChunk;
use crate::world::level;
use crate::world::level::Level;

verus! {

/// The numbers of the packets that a player is sent when they enter the game.
pub const LOGIN: i32 = 0x30;

pub const GAME_EVENT: i32 = 0x26;

pub const PLAYER_ABILITIES: i32 = 0x3E;

pub const SET_HELD_SLOT: i32 = 0x67;

pub const UPDATE_RECIPES: i32 = 0x83;

pub const SET_ENTITY_METADATA: i32 = 0x61;

pub const SET_CHUNK_CACHE_CENTER: i32 = 0x5C;

pub const LEVEL_CHUNK_WITH_LIGHT: i32 = 0x2C;

pub const SET_DEFAULT_SPAWN_POSITION: i32 = 0x5F;

pub const PLAYER_POSITION: i32 = 0x46;

/// The event that has the client wait for chunks.
pub const START_WAITING_FOR_CHUNKS: u8 = 13;

/// What a player in creative mode is able to do.
pub const CREATIVE_ABILITIES: u8 = 0x0F;

/// The bits of 0.05, how fast a player flies.
pub const FLYING_SPEED: u32 = 0x3D4C_CCCD;

/// The bits of 0.1, how much wider a player sees.
pub const FOV_MODIFIER: u32 = 0x3DCC_CCCD;

/// The bits of 8.0 and of -30.0, where a player enters.
pub const EIGHT: u64 = 0x4020_0000_0000_0000;

pub const MINUS_THIRTY: u64 = 0xC03E_0000_0000_0000;

/// The dimensions of the world.
pub open spec fn dimensions() -> Seq<Seq<char>> {
    seq!["minecraft:overworld"@, "minecraft:the_nether"@, "minecraft:the_end"@]
}

/// The first packet that a player is sent in the game.
pub open spec fn login_data(w: WorldConfig, max_players: i32, eid: i32, hash: i64) -> Seq<u8> {
    login::login_play_wire(
        eid,
        w.hardcore,
        dimensions(),
        max_players,
        w.view_distance,
        w.simulation_distance,
        w.reduced_debug_info,
        w.respawn_screen,
        w.limited_crafting,
        0,
        "minecraft:overworld"@,
        hash,
        w.default_gamemode,
        -1i8,
        w.debug,
        w.superflat,
        None,
        w.portal_cooldown,
        w.sea_level,
        w.enforce_secure_chat,
    )
}

/// Where a player is put when they enter.
pub open spec fn entry_position() -> Seq<u8> {
    varint::wire_i32(0) + num::be_bytes(EIGHT as nat, 8) + num::be_bytes(MINUS_THIRTY as nat, 8)
        + num::be_bytes(EIGHT as nat, 8) + num::be_bytes(0, 8) + num::be_bytes(0, 8)
        + num::be_bytes(0, 8) + num::be_bytes(0, 4) + num::be_bytes(0, 4) + num::be_bytes(0, 4)
}

/// The packets that a player is sent when they enter, by number and data.
pub open spec fn join_sequence(w: WorldConfig, max_players: i32, eid: i32, hash: i64) -> Seq<
    (i32, Seq<u8>),
> {
    seq![
        (LOGIN, login_data(w, max_players, eid, hash)),
        (GAME_EVENT, seq![START_WAITING_FOR_CHUNKS] + num::be_bytes(0, 4)),
        (
            PLAYER_ABILITIES,
            seq![CREATIVE_ABILITIES] + num::be_bytes(FLYING_SPEED as nat, 4) + num::be_bytes(
                FOV_MODIFIER as nat,
                4,
            ),
        ),
        (SET_HELD_SLOT, varint::wire_i32(0)),
        (UPDATE_RECIPES, seq![0u8, 0]),
        (SET_ENTITY_METADATA, varint::wire_i32(1) + seq![0xFFu8]),
        (SET_CHUNK_CACHE_CENTER, varint::wire_i32(0) + varint::wire_i32(0)),
    ]
}

/// The packets that put a player in their place, by number and data.
pub open spec fn placing_sequence() -> Seq<(i32, Seq<u8>)> {
    seq![
        (
            SET_DEFAULT_SPAWN_POSITION,
            serialize::text("minecraft:overworld"@) + serialize::position(8, 8, -30)
                + num::be_bytes(0, 4) + num::be_bytes(0, 4),
        ),
        (PLAYER_POSITION, entry_position()),
    ]
}

/// Packets by number and data.
pub open spec fn packets_view(packets: Seq<(i32, Vec<u8>)>) -> Seq<(i32, Seq<u8>)> {
    packets.map_values(|p: (i32, Vec<u8>)| (p.0, p.1@))
}

/// The first packet that a player is sent in the game.
fn login_packet(settings: &Settings, entity_id: i32, seed_hash: i64) -> (out: Vec<u8>)
    ensures
        out@ == login_data(settings.world, settings.max_players, entity_id, seed_hash),
{
    let w = &settings.world;
    let names: Vec<String> = vec![
        "minecraft:overworld".to_owned(),
        "minecraft:the_nether".to_owned(),
        "minecraft:the_end".to_owned(),
    ];
    assert(names@.map_values(|s: String| s@) =~= dimensions());
    login::login_play(
        entity_id,
        w.hardcore,
        names.as_slice(),
        settings.max_players,
        w.view_distance,
        w.simulation_distance,
        w.reduced_debug_info,
        w.respawn_screen,
        w.limited_crafting,
        0,
        "minecraft:overworld".to_owned(),
        seed_hash,
        w.default_gamemode,
        -1,
        w.debug,
        w.superflat,
        None,
        w.portal_cooldown,
        w.sea_level,
        w.enforce_secure_chat,
    )
}

/// The packets that a player is sent when they enter. `seed_hash` is the hash of the seed that
/// they are told.
pub fn join_packets(settings: &Settings, entity_id: i32, seed_hash: i64) -> (out: Vec<
    (i32, Vec<u8>),
>)
    ensures
        packets_view(out@) == join_sequence(
            settings.world,
            settings.max_players,
            entity_id,
            seed_hash,
        ),
{
    let mut out: Vec<(i32, Vec<u8>)> = Vec::new();
    out.push((LOGIN, login_packet(settings, entity_id, seed_hash)));
    out.push((GAME_EVENT, clientbound::game_event(START_WAITING_FOR_CHUNKS, 0)));
    out.push(
        (
            PLAYER_ABILITIES,
            clientbound::player_abilities(CREATIVE_ABILITIES, FLYING_SPEED, FOV_MODIFIER),
        ),
    );
    out.push((SET_HELD_SLOT, clientbound::set_held_slot(0)));
    out.push((UPDATE_RECIPES, clientbound::update_recipes()));
    out.push((SET_ENTITY_METADATA, clientbound::set_entity_metadata(1)));
    out.push((SET_CHUNK_CACHE_CENTER, clientbound::set_chunk_cache_center(0, 0)));
    assert(packets_view(out@) =~= join_sequence(
        settings.world,
        settings.max_players,
        entity_id,
        seed_hash,
    ));
    out
}

/// The packets that put a player in their place.
pub fn placing_packets() -> (out: Vec<(i32, Vec<u8>)>)
    ensures
        packets_view(out@) == placing_sequence(),
{
    let mut out: Vec<(i32, Vec<u8>)> = Vec::new();
    out.push(
        (
            SET_DEFAULT_SPAWN_POSITION,
            clientbound::set_default_spawn_position(
                "minecraft:overworld".to_owned(),
                (8, -30, 8),
                0,
                0,
            ),
        ),
    );
    out.push(
        (
            PLAYER_POSITION,
            clientbound::player_position(0, EIGHT, MINUS_THIRTY, EIGHT, 0, 0, 0, 0, 0, 0),
        ),
    );
    assert(packets_view(out@) =~= placing_sequence());
    out
}

/// The packets that a player is sent when they enter, with the hash of the world's seed.
pub fn enter_packets(settings: &Settings, entity_id: i32) -> (out: Vec<(i32, Vec<u8>)>)
    ensures
        packets_view(out@) == join_sequence(
            settings.world,
            settings.max_players,
            entity_id,
            seed::leading_i64(
                seed::sha256(num::be_bytes(num::twos64(settings.world.seed as int), 8)),
            ),
        ),
{
    join_packets(settings, entity_id, seed::hash_seed(settings.world.seed))
}

/// The chunk that is made where there is none yet: stone up to layer -33, air above.
pub open spec fn ground() -> chunk::ChunkView {
    chunk::empty_chunk().filled(chunk::chunk_cuboid((0, -64i32, 0), (16, -32i32, 16)), 1)
}

/// The chunk that is made where there is none yet.
pub fn ground_chunk() -> (r: LevelChunk)
    ensures
        r.wf(),
        r@ == ground(),
{
    let mut chunk = LevelChunk::new();
    chunk.fill((0, -64, 0), (16, -32, 16), 1);
    chunk
}

/// The chunk at a place: the one that is there, else the one that is made.
pub open spec fn chunk_or_ground(
    chunks: Map<(i32, i32), chunk::ChunkView>,
    x: int,
    z: int,
) -> chunk::ChunkView {
    if chunks.contains_key((x as i32, z as i32)) {
        chunks[(x as i32, z as i32)]
    } else {
        ground()
    }
}

/// The packets of the chunks at `x`, from `-r` up to but not `z`.
pub open spec fn column_stream(
    chunks: Map<(i32, i32), chunk::ChunkView>,
    r: int,
    x: int,
    z: int,
) -> Seq<u8>
    decreases z + r,
{
    if z <= -r {
        Seq::empty()
    } else {
        column_stream(chunks, r, x, z - 1) + codec::frame(
            LEVEL_CHUNK_WITH_LIGHT,
            chunk::chunk_wire(chunk_or_ground(chunks, x, z - 1), x as i32, (z - 1) as i32),
        )
    }
}

/// The packets of the columns from `-r` up to but not `x`.
pub open spec fn square_stream(chunks: Map<(i32, i32), chunk::ChunkView>, r: int, x: int) -> Seq<u8>
    decreases x + r,
{
    if x <= -r {
        Seq::empty()
    } else {
        square_stream(chunks, r, x - 1) + column_stream(chunks, r, x - 1, r + 1)
    }
}

/// Whether a chunk is before `(x, z)` in the square.
pub open spec fn before_in_square(cell: (i32, i32), r: int, x: int, z: int) -> bool {
    &&& -r <= cell.0 <= r
    &&& -r <= cell.1 <= r
    &&& cell.0 < x || (cell.0 == x && cell.1 < z)
}

/// The chunks with those of the square made that were missing before `(x, z)`.
pub open spec fn with_ground(
    chunks: Map<(i32, i32), chunk::ChunkView>,
    r: int,
    x: int,
    z: int,
) -> Map<(i32, i32), chunk::ChunkView> {
    Map::new(
        |cell: (i32, i32)| chunks.contains_key(cell) || before_in_square(cell, r, x, z),
        |cell: (i32, i32)|
            if chunks.contains_key(cell) {
                chunks[cell]
            } else {
                ground()
            },
    )
}

/// Once the chunks around the middle of the world were sent, all of them are loaded.
pub proof fn square_is_loaded(
    chunks: Map<(i32, i32), chunk::ChunkView>,
    r: int,
    cell: (i32, i32),
)
    requires
        -r <= cell.0 <= r,
        -r <= cell.1 <= r,
    ensures
        with_ground(chunks, r, r + 1, -r).contains_key(cell),
{
}

/// Sending the chunks around the middle of the world again sends the same and makes none.
pub proof fn streaming_again(chunks: Map<(i32, i32), chunk::ChunkView>, r: int)
    requires
        0 <= r <= i32::MAX,
    ensures
        ({
            let loaded = with_ground(chunks, r, r + 1, -r);
            &&& square_stream(loaded, r, r + 1) == square_stream(chunks, r, r + 1)
            &&& with_ground(loaded, r, r + 1, -r) == loaded
        }),
{
    let loaded = with_ground(chunks, r, r + 1, -r);
    assert(with_ground(loaded, r, r + 1, -r) =~= loaded);
    lemma_same_square(chunks, r, r + 1);
}

proof fn lemma_same_square(chunks: Map<(i32, i32), chunk::ChunkView>, r: int, x: int)
    requires
        0 <= r <= i32::MAX,
        x <= r + 1,
    ensures
        square_stream(with_ground(chunks, r, r + 1, -r), r, x) == square_stream(chunks, r, x),
    decreases x + r,
{
    if x > -r {
        lemma_same_square(chunks, r, x - 1);
        lemma_same_column(chunks, r, x - 1, r + 1);
    }
}

proof fn lemma_same_column(chunks: Map<(i32, i32), chunk::ChunkView>, r: int, x: int, z: int)
    requires
        0 <= r <= i32::MAX,
        -r <= x <= r,
        z <= r + 1,
    ensures
        column_stream(with_ground(chunks, r, r + 1, -r), r, x, z) == column_stream(chunks, r, x, z),
    decreases z + r,
{
    if z > -r {
        lemma_same_column(chunks, r, x, z - 1);
        let cell = (x as i32, (z - 1) as i32);
        assert(with_ground(chunks, r, r + 1, -r).contains_key(cell));
    }
}

/// The packet of the chunk at a place. If there is none yet, one is made.
pub fn chunk_packet<T>(level: &mut Level<T>, x: i32, z: i32) -> (out: Vec<u8>)
    requires
        old(level).wf(),
    ensures
        final(level).wf(),
        out@ == codec::frame(
            LEVEL_CHUNK_WITH_LIGHT,
            chunk::chunk_wire(chunk_or_ground(old(level)@.chunks, x as int, z as int), x, z),
        ),
        final(level)@ == (level::LevelView {
            chunks: if old(level)@.chunks.contains_key((x, z)) {
                old(level)@.chunks
            } else {
                old(level)@.chunks.insert((x, z), ground())
            },
            ..old(level)@
        }),
{
    let generator = |_x: i32, _z: i32, _seed: i64| -> (c: LevelChunk)
        ensures
            c.wf(),
            c@ == ground(),
        { ground_chunk() };
    let chunk = level.get_or_create_chunk((x, z), generator);
    let data = chunk.serialize(x, z);
    proof {
        chunk.lemma_well_formed();
        chunk::chunk_fits_in_packet(chunk@, x, z);
        varint::wire_i32_len(LEVEL_CHUNK_WITH_LIGHT);
    }
    codec::assemble(LEVEL_CHUNK_WITH_LIGHT, data.as_slice())
}

/// The packets of the chunks in the square around the middle of the world, column by column.
/// Chunks that there are not yet are made.
#[verifier::spinoff_prover]
#[verifier::rlimit(30)]
pub fn chunk_stream<T>(level: &mut Level<T>, view_distance: i32) -> (out: Vec<u8>)
    requires
        old(level).wf(),
        view_distance > i32::MIN,
    ensures
        final(level).wf(),
        out@ == square_stream(old(level)@.chunks, view_distance as int, view_distance + 1),
        final(level)@ == (level::LevelView {
            chunks: with_ground(
                old(level)@.chunks,
                view_distance as int,
                view_distance + 1,
                -view_distance,
            ),
            ..old(level)@
        }),
{
    let r: i64 = view_distance as i64;
    let ghost start = level@;
    let ghost chunks = level@.chunks;
    let mut out: Vec<u8> = Vec::new();
    let mut x: i64 = -r;
    proof {
        assert(with_ground(chunks, r as int, x as int, -(r as int)) =~= chunks);
    }
    while x <= r
        invariant
            r == view_distance,
            view_distance > i32::MIN,
            -r <= x,
            if r < 0 {
                x == -r
            } else {
                x <= r + 1
            },
            chunks == start.chunks,
            level.wf(),
            out@ == square_stream(chunks, r as int, x as int),
            level@ == (level::LevelView {
                chunks: with_ground(chunks, r as int, x as int, -(r as int)),
                ..start
            }),
        decreases r + 1 - x,
    {
        let ghost column = out@;
        let mut z: i64 = -r;
        while z <= r
            invariant
                r == view_distance,
                view_distance > i32::MIN,
                -r <= x <= r,
                -r <= z <= r + 1,
                chunks == start.chunks,
                level.wf(),
                out@ == column + column_stream(chunks, r as int, x as int, z as int),
                level@ == (level::LevelView {
                    chunks: with_ground(chunks, r as int, x as int, z as int),
                    ..start
                }),
            decreases r + 1 - z,
        {
            let mut packet = chunk_packet(level, x as i32, z as i32);
            out.append(&mut packet);
            z += 1;
            proof {
                assert(level@.chunks =~= with_ground(chunks, r as int, x as int, z as int));
                assert(out@ =~= column + column_stream(chunks, r as int, x as int, z as int));
            }
        }
        proof {
            assert(with_ground(chunks, r as int, x as int, r + 1) =~= with_ground(
                chunks,
                r as int,
                x + 1,
                -(r as int),
            ));
        }
        x += 1;
    }
    proof {
        if r < 0 {
            assert(with_ground(chunks, r as int, x as int, -(r as int)) =~= with_ground(
                chunks,
                r as int,
                r + 1,
                -(r as int),
            ));
        }
    }
    out
}

} // verus!
