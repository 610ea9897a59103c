//! What a player finds when they enter the game.
use vstd::prelude::*;
use vstd::utf8;

use crate::codec;
use crate::config::WorldConfig;
use crate::join;
use crate::laws::blocks;
use crate::laws::connection;
use crate::login;
use crate::num;
use crate::seed;
use crate::serialize;
use crate::serverbound;
use crate::text;
use crate::varint;
use crate::world::chunk;
use crate::world::palette;

verus! {

/// In the chunk that is made where there is none, every block below height -32 is stone and every
/// block from there on is air. The chunk is of biome 0 throughout, and dark.
pub proof fn ground_is_stone_under_air(x: int, y: int, z: int, l: int)
    requires
        0 <= x < 16,
        -64 <= y < 320,
        0 <= z < 16,
        0 <= l < 26,
    ensures
        ({
            let made = join::ground();
            let section = made.sections[(y + 64) / 16];
            &&& made.sections.len() == 24
            &&& section.blocks.len() == 4096
            &&& section.blocks[((y + 64) % 16) * 256 + z * 16 + x] == if y < -32 {
                1u16
            } else {
                0u16
            }
            &&& section.biomes == palette::ContainerView::<u8>::Single(0)
            &&& made.skylight.len() == 26
            &&& made.blocklight.len() == 26
            &&& made.skylight[l] == chunk::LightSection::Single(0)
            &&& made.blocklight[l] == chunk::LightSection::Single(0)
        }),
{
    let s = (y + 64) / 16;
    let i = ((y + 64) % 16) * 256 + z * 16 + x;
    blocks::new_chunks_are_air(s, i, l);
    blocks::filled_between_corners(
        chunk::empty_chunk(),
        (0, -64i32, 0),
        (16, -32i32, 16),
        1,
        x,
        y,
        z,
    );
}

/// Once the chunks around the middle of the world were sent, there are those that there were, as
/// they were, and all of the square; those that were missing are all alike, and nothing outside the
/// square was made.
pub proof fn missing_chunks_of_the_square_are_made(
    chunks: Map<(i32, i32), chunk::ChunkView>,
    r: int,
    x: i32,
    z: i32,
)
    ensures
        ({
            let after = join::with_ground(chunks, r, r + 1, -r);
            &&& after.contains_key((x, z)) <==> chunks.contains_key((x, z)) || (-r <= x <= r && -r
                <= z <= r)
            &&& chunks.contains_key((x, z)) ==> after[(x, z)] == chunks[(x, z)]
            &&& !chunks.contains_key((x, z)) && after.contains_key((x, z)) ==> after[(x, z)]
                == join::ground()
        }),
{
}

/// The packets of the first `n` chunks of the square of `2 * r + 1` by `2 * r + 1` chunks around
/// the middle of the world, of which those of one x follow each other.
pub open spec fn first_packets(
    chunks: Map<(i32, i32), chunk::ChunkView>,
    r: int,
    n: nat,
) -> Seq<u8>
    decreases n,
{
    if n == 0 {
        Seq::empty()
    } else {
        let x = ((n - 1) / (2 * r + 1) - r) as i32;
        let z = ((n - 1) % (2 * r + 1) - r) as i32;
        let sent = if chunks.contains_key((x, z)) {
            chunks[(x, z)]
        } else {
            join::ground()
        };
        first_packets(chunks, r, (n - 1) as nat) + codec::frame(
            0x2C,
            chunk::chunk_wire(sent, x, z),
        )
    }
}

/// The chunks of the square are sent each once and in order, x by x and z by z, and nothing else
/// is. A chunk that is there is sent as it is, and a missing one as it is made.
pub proof fn square_is_sent_in_order(chunks: Map<(i32, i32), chunk::ChunkView>, r: int)
    requires
        0 <= r <= i32::MAX,
    ensures
        join::square_stream(chunks, r, r + 1) == first_packets(
            chunks,
            r,
            ((2 * r + 1) * (2 * r + 1)) as nat,
        ),
{
    lemma_columns(chunks, r, 2 * r + 1);
}

/// With a negative distance nothing is sent.
pub proof fn negative_distance_sends_nothing(
    chunks: Map<(i32, i32), chunk::ChunkView>,
    r: int,
)
    requires
        r < 0,
    ensures
        join::square_stream(chunks, r, r + 1) == Seq::<u8>::empty(),
        join::with_ground(chunks, r, r + 1, -r) == chunks,
{
    assert(join::with_ground(chunks, r, r + 1, -r) =~= chunks);
}

#[verifier::spinoff_prover]
#[verifier::rlimit(30)]
proof fn lemma_columns(chunks: Map<(i32, i32), chunk::ChunkView>, r: int, i: int)
    requires
        0 <= r <= i32::MAX,
        0 <= i <= 2 * r + 1,
    ensures
        i * (2 * r + 1) >= 0,
        join::square_stream(chunks, r, i - r) == first_packets(
            chunks,
            r,
            (i * (2 * r + 1)) as nat,
        ),
    decreases i,
{
    let w = 2 * r + 1;
    assert(i * w >= 0) by (nonlinear_arith)
        requires
            i >= 0,
            w > 0,
    ;
    if i > 0 {
        lemma_columns(chunks, r, i - 1);
        lemma_column(chunks, r, i - 1, w);
        assert((i - 1) * w + w == i * w) by (nonlinear_arith);
    } else {
        assert(i * w == 0) by (nonlinear_arith)
            requires
                i == 0,
        ;
    }
}

#[verifier::spinoff_prover]
#[verifier::rlimit(30)]
proof fn lemma_column(chunks: Map<(i32, i32), chunk::ChunkView>, r: int, i: int, j: int)
    requires
        0 <= r <= i32::MAX,
        0 <= i < 2 * r + 1,
        0 <= j <= 2 * r + 1,
        i * (2 * r + 1) >= 0,
        join::square_stream(chunks, r, i - r) == first_packets(
            chunks,
            r,
            (i * (2 * r + 1)) as nat,
        ),
    ensures
        join::square_stream(chunks, r, i - r) + join::column_stream(chunks, r, i - r, j - r)
            == first_packets(chunks, r, (i * (2 * r + 1) + j) as nat),
    decreases j,
{
    let before = join::square_stream(chunks, r, i - r);
    if j == 0 {
        assert(before + join::column_stream(chunks, r, i - r, -r) =~= before);
    } else {
        lemma_column(chunks, r, i, j - 1);
        lemma_next_packet(chunks, r, i, j - 1);
        let column = join::column_stream(chunks, r, i - r, j - 1 - r);
        let last = packet_at(chunks, i - r, j - 1 - r);
        assert(join::column_stream(chunks, r, i - r, j - r) == column + last);
        assert(before + (column + last) =~= (before + column) + last);
    }
}

/// The packet of the chunk at a place.
spec fn packet_at(chunks: Map<(i32, i32), chunk::ChunkView>, x: int, z: int) -> Seq<u8> {
    codec::frame(
        0x2C,
        chunk::chunk_wire(join::chunk_or_ground(chunks, x, z), x as i32, z as i32),
    )
}

#[verifier::spinoff_prover]
proof fn lemma_next_packet(
    chunks: Map<(i32, i32), chunk::ChunkView>,
    r: int,
    i: int,
    j: int,
)
    requires
        0 <= r <= i32::MAX,
        0 <= i < 2 * r + 1,
        0 <= j < 2 * r + 1,
        i * (2 * r + 1) >= 0,
    ensures
        first_packets(chunks, r, (i * (2 * r + 1) + j + 1) as nat) == first_packets(
            chunks,
            r,
            (i * (2 * r + 1) + j) as nat,
        ) + packet_at(chunks, i - r, j - r),
{
    let w = 2 * r + 1;
    let n = i * w + j;
    vstd::arithmetic::div_mod::lemma_fundamental_div_mod_converse(n, w, i, j);
    assert(n / w == i && n % w == j);
}

/// A player that enters is sent seven packets, of these numbers and in this order.
pub proof fn entering_takes_seven_packets(w: WorldConfig, max_players: i32, eid: i32, hash: i64)
    ensures
        ({
            let sent = join::join_sequence(w, max_players, eid, hash);
            &&& sent.len() == 7
            &&& sent[0].0 == 0x30
            &&& sent[1].0 == 0x26
            &&& sent[2].0 == 0x3E
            &&& sent[3].0 == 0x67
            &&& sent[4].0 == 0x83
            &&& sent[5].0 == 0x61
            &&& sent[6].0 == 0x5C
            &&& sent[0].1 == join::login_data(w, max_players, eid, hash)
            &&& sent[1].1 == seq![13u8, 0, 0, 0, 0]
            &&& sent[2].1 == seq![0x0Fu8, 0x3D, 0x4C, 0xCC, 0xCD, 0x3D, 0xCC, 0xCC, 0xCD]
            &&& sent[3].1 == seq![0u8]
            &&& sent[4].1 == seq![0u8, 0]
            &&& sent[5].1 == seq![1u8, 0xFF]
            &&& sent[6].1 == seq![0u8, 0]
        }),
{
    reveal_with_fuel(varint::wire, 2);
    assert(varint::wire_i32(0) =~= seq![0u8]);
    assert(varint::wire_i32(1) =~= seq![1u8]);
    assert(num::be_bytes(0, 4) =~= seq![0u8, 0, 0, 0]) by {
        reveal_with_fuel(num::be_bytes, 5);
    }
    assert(num::be_bytes(0x3D4C_CCCD, 4) =~= seq![0x3Du8, 0x4C, 0xCC, 0xCD]) by {
        reveal_with_fuel(num::be_bytes, 5);
    }
    assert(num::be_bytes(0x3DCC_CCCD, 4) =~= seq![0x3Du8, 0xCC, 0xCC, 0xCD]) by {
        reveal_with_fuel(num::be_bytes, 5);
    }
    let sent = join::join_sequence(w, max_players, eid, hash);
    assert(sent[1].1 =~= seq![13u8, 0, 0, 0, 0]);
    assert(sent[2].1 =~= seq![0x0Fu8, 0x3D, 0x4C, 0xCC, 0xCD, 0x3D, 0xCC, 0xCC, 0xCD]);
    assert(sent[5].1 =~= seq![1u8, 0xFF]);
    assert(sent[6].1 =~= seq![0u8, 0]);
}

/// A player is put in their place by two packets: the place where they enter anew, and the place
/// where they are, in 61 bytes of which the last 36 are zero.
pub proof fn players_are_put_in_their_place(i: int)
    requires
        25 <= i < 61,
    ensures
        ({
            let sent = join::placing_sequence();
            &&& sent.len() == 2
            &&& sent[0].0 == 0x5F
            &&& sent[1].0 == 0x46
            &&& text::first_text(sent[0].1) == Some("minecraft:overworld"@)
            &&& serverbound::position_at(sent[0].1, text::text_end(sent[0].1)) == Some(
                (8int, 8int, -30int),
            )
            &&& sent[0].1.len() == text::text_end(sent[0].1) + 16
            &&& sent[1].1.len() == 61
            &&& sent[1].1[0] == 0
            &&& num::be_value(sent[1].1.subrange(1, 9)) == 0x4020_0000_0000_0000
            &&& num::be_value(sent[1].1.subrange(9, 17)) == 0xC03E_0000_0000_0000
            &&& num::be_value(sent[1].1.subrange(17, 25)) == 0x4020_0000_0000_0000
            &&& sent[1].1[i] == 0
        }),
{
    lemma_spawn_told();
    lemma_place_told(i);
}

proof fn lemma_spawn_told()
    ensures
        ({
            let bytes = join::placing_sequence()[0].1;
            &&& text::first_text(bytes) == Some("minecraft:overworld"@)
            &&& serverbound::position_at(bytes, text::text_end(bytes)) == Some(
                (8int, 8int, -30int),
            )
            &&& bytes.len() == text::text_end(bytes) + 16
        }),
{
    let name = "minecraft:overworld"@;
    let bytes = join::placing_sequence()[0].1;
    let (a, b) = (serialize::text(name), serialize::position(8, 8, -30));
    let zero = num::be_bytes(0, 4);
    num::lemma_be_bytes_len(0, 4);
    num::lemma_be_bytes_len(serialize::packed_position(8, 8, -30), 8);
    reveal_strlit("minecraft:overworld");
    assert(utf8::encode_utf8(name).len() <= 4 * name.len()) by {
        connection::lemma_encoded_len(name);
    }
    assert(bytes =~= a + (b + (zero + zero)));
    text::reading_inverts_writing(name, b + (zero + zero));
    assert(bytes =~= a + b + (zero + zero));
    serverbound::position_round_trip(a, 8, 8, -30, zero + zero);
}

proof fn lemma_place_told(i: int)
    requires
        25 <= i < 61,
    ensures
        ({
            let bytes = join::placing_sequence()[1].1;
            &&& bytes.len() == 61
            &&& bytes[0] == 0
            &&& num::be_value(bytes.subrange(1, 9)) == 0x4020_0000_0000_0000
            &&& num::be_value(bytes.subrange(9, 17)) == 0xC03E_0000_0000_0000
            &&& num::be_value(bytes.subrange(17, 25)) == 0x4020_0000_0000_0000
            &&& bytes[i] == 0
        }),
{
    let bytes = join::placing_sequence()[1].1;
    let (e, m) = (
        num::be_bytes(0x4020_0000_0000_0000, 8),
        num::be_bytes(0xC03E_0000_0000_0000, 8),
    );
    num::lemma_pow256_values();
    num::be_round_trip(0x4020_0000_0000_0000, 8);
    num::be_round_trip(0xC03E_0000_0000_0000, 8);
    let (z, y) = (num::be_bytes(0, 8), num::be_bytes(0, 4));
    assert(z =~= Seq::new(8, |k: int| 0u8)) by {
        reveal_with_fuel(num::be_bytes, 9);
    }
    assert(y =~= Seq::new(4, |k: int| 0u8)) by {
        reveal_with_fuel(num::be_bytes, 5);
    }
    assert(varint::wire_i32(0) =~= seq![0u8]) by {
        reveal_with_fuel(varint::wire, 2);
    }
    let tail = z + z + z + y + y + y;
    assert(tail =~= Seq::new(36, |k: int| 0u8));
    assert(bytes =~= seq![0u8] + e + m + e + tail);
    assert(bytes.subrange(1, 9) =~= e);
    assert(bytes.subrange(9, 17) =~= m);
    assert(bytes.subrange(17, 25) =~= e);
    assert(bytes[i] == tail[i - 25]);
}

/// A byte that tells a truth value.
pub open spec fn yes(b: bool) -> u8 {
    if b {
        1
    } else {
        0
    }
}

/// The parts of the first packet of the game stand in this order, whatever they are.
pub proof fn first_packet_has_its_parts_in_order(
    eid: i32,
    hardcore: bool,
    dimensions: Seq<Seq<char>>,
    max_players: i32,
    view_distance: i32,
    sim_distance: i32,
    reduced_debug: bool,
    respawn_screen: bool,
    limited_crafting: bool,
    dimension_type: i32,
    dimension_name: Seq<char>,
    seed_hash: i64,
    gamemode: u8,
    prev_gamemode: i8,
    debug_mode: bool,
    superflat: bool,
    death: Option<(String, (i32, i32, i16))>,
    portal_cooldown: i32,
    sea_level: i32,
    secure_chat: bool,
)
    ensures
        login::login_play_wire(
            eid,
            hardcore,
            dimensions,
            max_players,
            view_distance,
            sim_distance,
            reduced_debug,
            respawn_screen,
            limited_crafting,
            dimension_type,
            dimension_name,
            seed_hash,
            gamemode,
            prev_gamemode,
            debug_mode,
            superflat,
            death,
            portal_cooldown,
            sea_level,
            secure_chat,
        ) == num::be_bytes((eid as int % 0x1_0000_0000) as nat, 4) + seq![yes(hardcore)]
            + login::text_list(dimensions) + varint::wire_i32(max_players) + varint::wire_i32(
            view_distance,
        ) + varint::wire_i32(sim_distance) + seq![yes(reduced_debug)] + seq![yes(respawn_screen)]
            + seq![yes(limited_crafting)] + varint::wire_i32(dimension_type) + serialize::text(
            dimension_name,
        ) + num::be_bytes((seed_hash as int % 0x1_0000_0000_0000_0000) as nat, 8) + seq![
            gamemode,
            (prev_gamemode as int % 0x100) as u8,
        ] + seq![yes(debug_mode)] + seq![yes(superflat)] + login::death_wire(death)
            + varint::wire_i32(portal_cooldown) + varint::wire_i32(sea_level) + seq![
            yes(secure_chat),
        ],
{
}

/// The first packet of the game tells the player's number in four bytes, the rules of the world
/// and the hash of its seed in eight, each at its own place between the others.
pub proof fn login_tells_the_rules(w: WorldConfig, max_players: i32, eid: i32, hash: i64)
    ensures
        ({
            let bytes = join::login_data(w, max_players, eid, hash);
            let names = serialize::text("minecraft:overworld"@) + serialize::text(
                "minecraft:the_nether"@,
            ) + serialize::text("minecraft:the_end"@);
            bytes == num::be_bytes((eid as int % 0x1_0000_0000) as nat, 4) + seq![yes(w.hardcore)]
                + (seq![3u8] + names) + varint::wire_i32(max_players) + varint::wire_i32(
                w.view_distance,
            ) + varint::wire_i32(w.simulation_distance) + seq![yes(w.reduced_debug_info)] + seq![
                yes(w.respawn_screen),
            ] + seq![yes(w.limited_crafting)] + seq![0u8] + serialize::text(
                "minecraft:overworld"@,
            ) + num::be_bytes((hash as int % 0x1_0000_0000_0000_0000) as nat, 8) + seq![
                w.default_gamemode,
                0xFF,
            ] + seq![yes(w.debug)] + seq![yes(w.superflat)] + seq![0u8] + varint::wire_i32(
                w.portal_cooldown,
            ) + varint::wire_i32(w.sea_level) + seq![yes(w.enforce_secure_chat)]
        }),
{
    reveal_with_fuel(varint::wire, 2);
    assert(varint::wire_i32(0) =~= seq![0u8]);
    assert(serialize::count(3) =~= seq![3u8]);
    lemma_three_texts("minecraft:overworld"@, "minecraft:the_nether"@, "minecraft:the_end"@);
}

proof fn lemma_three_texts(a: Seq<char>, b: Seq<char>, c: Seq<char>)
    ensures
        login::each_text(seq![a, b, c]) == serialize::text(a) + serialize::text(b)
            + serialize::text(c),
{
    reveal_with_fuel(login::each_text, 4);
    assert(seq![a, b, c].drop_last() =~= seq![a, b]);
    assert(seq![a, b].drop_last() =~= seq![a]);
    assert(seq![a].drop_last() =~= Seq::empty());
    assert(login::each_text(seq![a]) =~= serialize::text(a));
}

/// The hash of a seed is the first eight bytes of its digest, the first one the highest, up to
/// multiples of 2^64.
pub proof fn hashes_are_the_first_eight_bytes(digest: Seq<u8>)
    requires
        digest.len() >= 8,
    ensures
        (seed::leading_i64(digest) - (digest[0] * 0x100_0000_0000_0000 + digest[1]
            * 0x1_0000_0000_0000 + digest[2] * 0x100_0000_0000 + digest[3] * 0x1_0000_0000
            + digest[4] * 0x100_0000 + digest[5] * 0x1_0000 + digest[6] * 0x100 + digest[7]))
            % 0x1_0000_0000_0000_0000 == 0,
{
    let s = digest.take(8);
    reveal_with_fuel(num::be_value, 9);
    assert(s.drop_last() =~= digest.take(7));
    assert(digest.take(7).drop_last() =~= digest.take(6));
    assert(digest.take(6).drop_last() =~= digest.take(5));
    assert(digest.take(5).drop_last() =~= digest.take(4));
    assert(digest.take(4).drop_last() =~= digest.take(3));
    assert(digest.take(3).drop_last() =~= digest.take(2));
    assert(digest.take(2).drop_last() =~= digest.take(1));
    assert(digest.take(1).drop_last() =~= digest.take(0));
}

} // verus!
