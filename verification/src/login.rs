//! Joining: the handshake, the login, and the first packet of the game.
use vstd::prelude::*;
use vstd::utf8;

use crate::cursor;
use crate::num;
use crate::serialize;
use crate::text;
use crate::varint;
use crate::varint::VarInt;

verus! {

/// What a client says first: its protocol version, the address and the port that it connects to,
/// and what it wants next.
#[verifier::ext_equal]
pub struct HandshakeView {
    pub protocol: i32,
    pub address: Seq<char>,
    pub port: u16,
    pub next: i32,
}

/// The wire form of a handshake.
pub open spec fn handshake_wire(h: HandshakeView) -> Seq<u8> {
    varint::wire_i32(h.protocol) + serialize::text(h.address) + num::be_bytes(h.port as nat, 2)
        + varint::wire_i32(h.next)
}

/// The handshake that `data` holds. Only address and port must be all there.
pub open spec fn handshake(data: Seq<u8>) -> Option<HandshakeView> {
    match text::text_at(data, varint::size(data) as int) {
        Some((address, at)) => if at + 2 <= data.len() {
            Some(
                HandshakeView {
                    protocol: varint::low_bits(data),
                    address,
                    port: num::be_value(data.subrange(at, at + 2)) as u16,
                    next: varint::low_bits(data.skip(at + 2)),
                },
            )
        } else {
            None
        },
        None => None,
    }
}

/// The handshake that `data` holds: protocol version, address, port, and what is wanted next.
pub fn stage_0(data: &[u8]) -> (r: Option<(VarInt, String, u16, VarInt)>)
    ensures
        match r {
            Some((protocol, address, port, next)) => handshake(data@) == Some(
                HandshakeView { protocol: protocol.0, address: address@, port, next: next.0 },
            ),
            None => handshake(data@) is None,
        },
{
    let (read, protocol) = VarInt::decode_loose(data);
    let (address, at): (String, usize) = match text::string_at(data, read) {
        Some(r) => r,
        None => return None,
    };
    let bytes: &[u8] = match cursor::part(data, at, 2) {
        Some(bytes) => bytes,
        None => return None,
    };
    proof {
        num::be_read_write(bytes@);
        num::lemma_pow256_values();
    }
    let port: u16 = num::read_be(bytes) as u16;
    let rest: &[u8] = match cursor::tail(data, at + 2) {
        Some(rest) => rest,
        None => return None,
    };
    let (_, next) = VarInt::decode_loose(rest);
    Some((protocol, address, port, next))
}

/// Reading a handshake gives back what was written, whatever follows it.
pub proof fn handshake_round_trip(h: HandshakeView, rest: Seq<u8>)
    requires
        serialize::text(h.address).len() <= i32::MAX,
        handshake_wire(h).len() + rest.len() <= usize::MAX,
    ensures
        handshake(handshake_wire(h) + rest) == Some(h),
{
    let (a, b, c, d) = (
        varint::wire_i32(h.protocol),
        serialize::text(h.address),
        num::be_bytes(h.port as nat, 2),
        varint::wire_i32(h.next),
    );
    let end = d + rest;
    let data = handshake_wire(h) + rest;
    assert(data =~= a + (b + c + end));
    varint::decode_inverts_encode(h.protocol, b + c + end);
    assert(data =~= a + b + (c + end));
    text::reading_in_place(a, h.address, c + end);
    num::lemma_pow256_values();
    num::be_round_trip(h.port as nat, 2);
    let at = (a.len() + b.len()) as int;
    assert(data.subrange(at, at + 2) =~= c);
    assert(data.skip(at + 2) =~= end);
    varint::decode_inverts_encode(h.next, rest);
}

/// The name and the number of the player that wants to log in.
pub open spec fn login_request(data: Seq<u8>) -> Option<(Seq<char>, nat)> {
    match text::text_at(data, 0) {
        Some((name, at)) => if at + 16 <= data.len() {
            Some((name, num::be_value(data.subrange(at, at + 16))))
        } else {
            None
        },
        None => None,
    }
}

/// The name and the number of the player that wants to log in.
pub fn login_start(data: &[u8]) -> (r: Option<(String, u128)>)
    ensures
        match r {
            Some((name, uuid)) => login_request(data@) == Some((name@, uuid as nat)),
            None => login_request(data@) is None,
        },
{
    let (name, at): (String, usize) = match text::string_at(data, 0) {
        Some(r) => r,
        None => return None,
    };
    match cursor::part(data, at, 16) {
        Some(bytes) => Some((name, num::read_be(bytes))),
        None => None,
    }
}

/// Reading a login request gives back the name and the number that were written, whatever follows
/// them.
pub proof fn login_round_trip(name: Seq<char>, uuid: u128, rest: Seq<u8>)
    requires
        serialize::text(name).len() <= i32::MAX,
        serialize::text(name).len() + 16 + rest.len() <= usize::MAX,
    ensures
        login_request(serialize::text(name) + num::be_bytes(uuid as nat, 16) + rest) == Some(
            (name, uuid as nat),
        ),
{
    let (a, b) = (serialize::text(name), num::be_bytes(uuid as nat, 16));
    let data = a + b + rest;
    num::lemma_pow256_values();
    num::be_round_trip(uuid as nat, 16);
    assert(data =~= Seq::<u8>::empty() + a + (b + rest));
    text::reading_in_place(Seq::empty(), name, b + rest);
    assert(data.subrange(a.len() as int, (a.len() + 16) as int) =~= b);
}

/// The answer to a login request.
pub open spec fn login_success_wire(name: Seq<char>, uuid: nat, properties: i32) -> Seq<u8> {
    num::be_bytes(uuid, 16) + serialize::text(name) + varint::wire_i32(properties)
}

/// The answer to a login request; `None` if the name is too long for its length field.
pub fn login_success(name: &str, uuid: u128, properties: i32) -> (r: Option<Vec<u8>>)
    ensures
        match r {
            Some(out) => {
                &&& utf8::encode_utf8(name@).len() <= i32::MAX
                &&& out@ == login_success_wire(name@, uuid as nat, properties)
            },
            None => utf8::encode_utf8(name@).len() > i32::MAX,
        },
{
    let mut buf: Vec<u8> = Vec::new();
    num::push_be(&mut buf, uuid, 16);
    let mut name: Vec<u8> = match text::assemble_string(name) {
        Some(bytes) => bytes,
        None => return None,
    };
    buf.append(&mut name);
    serialize::push(&mut buf, &VarInt::new(properties));
    Some(buf)
}

/// A place of death: whether there is one, its dimension and its position.
pub open spec fn death_wire(death: Option<(String, (i32, i32, i16))>) -> Seq<u8> {
    match death {
        Some((dimension, (x, z, y))) => serialize::flag(true) + serialize::text(dimension@)
            + serialize::position(x as int, y as int, z as int),
        None => serialize::flag(false),
    }
}

/// Texts, one after the other.
pub open spec fn each_text(texts: Seq<Seq<char>>) -> Seq<u8>
    decreases texts.len(),
{
    if texts.len() == 0 {
        Seq::empty()
    } else {
        each_text(texts.drop_last()) + serialize::text(texts.last())
    }
}

/// A list of texts: their number, then each of them.
pub open spec fn text_list(texts: Seq<Seq<char>>) -> Seq<u8> {
    serialize::count(texts.len()) + each_text(texts)
}

proof fn lemma_text_list(texts: Seq<String>)
    ensures
        serialize::list(texts) == text_list(texts.map_values(|s: String| s@)),
{
    lemma_each_text(texts);
}

proof fn lemma_each_text(texts: Seq<String>)
    ensures
        serialize::each(texts) == each_text(texts.map_values(|s: String| s@)),
    decreases texts.len(),
{
    let views = texts.map_values(|s: String| s@);
    if texts.len() > 0 {
        lemma_each_text(texts.drop_last());
        assert(views.drop_last() =~= texts.drop_last().map_values(|s: String| s@));
    }
}

/// The wire form of the first packet of the game.
pub open spec fn login_play_wire(
    eid: i32,
    hardcore: bool,
    dimensions: Seq<Seq<char>>,
    max_players: i32,
    view_distance: i32,
    sim_distance: i32,
    reduced_debug: bool,
    respawn_screen: bool,
    limited_crafting: bool,
    dimension_type: i32,
    dimension_name: Seq<char>,
    seed_hash: i64,
    gamemode: u8,
    prev_gamemode: i8,
    debug_mode: bool,
    superflat: bool,
    death_location: Option<(String, (i32, i32, i16))>,
    portal_cooldown: i32,
    sea_level: i32,
    secure_chat: bool,
) -> Seq<u8> {
    num::be_bytes(num::twos32(eid as int), 4) + serialize::flag(hardcore) + text_list(dimensions)
        + varint::wire_i32(max_players) + varint::wire_i32(view_distance) + varint::wire_i32(
        sim_distance,
    ) + serialize::flag(reduced_debug) + serialize::flag(respawn_screen) + serialize::flag(
        limited_crafting,
    ) + varint::wire_i32(dimension_type) + serialize::text(dimension_name) + num::be_bytes(
        num::twos64(seed_hash as int),
        8,
    ) + seq![gamemode, num::twos8(prev_gamemode as int) as u8] + serialize::flag(debug_mode)
        + serialize::flag(superflat) + death_wire(death_location) + varint::wire_i32(
        portal_cooldown,
    ) + varint::wire_i32(sea_level) + serialize::flag(secure_chat)
}

/// The first packet of the game.
pub fn login_play(
    eid: i32,
    hardcore: bool,
    dimensions: &[String],
    max_players: i32,
    view_distance: i32,
    sim_distance: i32,
    reduced_debug: bool,
    respawn_screen: bool,
    limited_crafting: bool,
    dimension_type: i32,
    dimension_name: String,
    seed_hash: i64,
    gamemode: u8,
    prev_gamemode: i8,
    debug_mode: bool,
    superflat: bool,
    death_location: Option<(String, (i32, i32, i16))>,
    portal_cooldown: i32,
    sea_level: i32,
    secure_chat: bool,
) -> (out: Vec<u8>)
    ensures
        out@ == login_play_wire(
            eid,
            hardcore,
            dimensions@.map_values(|s: String| s@),
            max_players,
            view_distance,
            sim_distance,
            reduced_debug,
            respawn_screen,
            limited_crafting,
            dimension_type,
            dimension_name@,
            seed_hash,
            gamemode,
            prev_gamemode,
            debug_mode,
            superflat,
            death_location,
            portal_cooldown,
            sea_level,
            secure_chat,
        ),
{
    let mut buf: Vec<u8> = Vec::new();
    num::push_be(&mut buf, num::i32_bits(eid) as u128, 4);
    serialize::push(&mut buf, &hardcore);
    proof {
        lemma_text_list(dimensions@);
    }
    serialize::push(&mut buf, dimensions);
    serialize::push(&mut buf, &max_players);
    serialize::push(&mut buf, &view_distance);
    serialize::push(&mut buf, &sim_distance);
    serialize::push(&mut buf, &reduced_debug);
    serialize::push(&mut buf, &respawn_screen);
    serialize::push(&mut buf, &limited_crafting);
    serialize::push(&mut buf, &dimension_type);
    serialize::push(&mut buf, &dimension_name);
    num::push_be(&mut buf, num::i64_bits(seed_hash) as u128, 8);
    let ghost head = buf@;
    buf.push(gamemode);
    buf.push(num::i8_bits(prev_gamemode));
    assert(buf@ =~= head + seq![gamemode, num::twos8(prev_gamemode as int) as u8]);
    serialize::push(&mut buf, &debug_mode);
    serialize::push(&mut buf, &superflat);
    let ghost head = buf@;
    match &death_location {
        Some((dimension, position)) => {
            serialize::push(&mut buf, &true);
            serialize::push(&mut buf, dimension);
            serialize::push(&mut buf, position);
        },
        None => {
            serialize::push(&mut buf, &false);
        },
    }
    assert(buf@ =~= head + death_wire(death_location));
    serialize::push(&mut buf, &portal_cooldown);
    serialize::push(&mut buf, &sea_level);
    serialize::push(&mut buf, &secure_chat);
    buf
}

} // verus!
