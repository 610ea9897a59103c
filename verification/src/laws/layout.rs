//! Texts, frames and lists on the wire: what stands where.
use vstd::arithmetic::power2;
use vstd::prelude::*;
use vstd::utf8;

use crate::clientbound;
use crate::codec;
use crate::login;
use crate::num;
use crate::packs;
use crate::serialize;
use crate::serialize::Serialize;
use crate::serverbound;
use crate::text;
use crate::varint;

verus! {

/// A text is written as the number of bytes of its UTF-8 form, then those bytes.
pub proof fn texts_are_counted_in_bytes(s: Seq<char>)
    requires
        utf8::encode_utf8(s).len() <= i32::MAX,
    ensures
        ({
            let bytes = serialize::text(s);
            &&& varint::complete(bytes)
            &&& varint::low_bits(bytes) == utf8::encode_utf8(s).len()
            &&& bytes.skip(varint::size(bytes) as int) == utf8::encode_utf8(s)
        }),
{
    let n = utf8::encode_utf8(s).len() as i32;
    varint::decode_inverts_encode(n, utf8::encode_utf8(s));
    assert(serialize::text(s).skip(varint::wire_i32(n).len() as int) =~= utf8::encode_utf8(s));
}

/// A text is read exactly if its length is not negative, as many bytes are there, and they are
/// UTF-8; it is then the text of those bytes.
pub proof fn texts_are_read_from_their_bytes(data: Seq<u8>)
    ensures
        ({
            let first = varint::size(data) as int;
            let end = first + varint::low_bits(data);
            let bytes = data.subrange(first, end);
            match text::first_text(data) {
                Some(s) => {
                    &&& varint::low_bits(data) >= 0
                    &&& end <= data.len()
                    &&& utf8::encode_utf8(s) == bytes
                    &&& text::text_end(data) == end
                },
                None => varint::low_bits(data) < 0 || end > data.len() || !utf8::valid_utf8(bytes),
            }
        }),
{
    let first = varint::size(data) as int;
    let bytes = data.subrange(first, first + varint::low_bits(data));
    if utf8::valid_utf8(bytes) {
        utf8::decode_utf8_encode_utf8(bytes);
    }
}

/// A text is read from its place as from the head of what starts there, and the place that follows
/// is behind its bytes, as long as the text with its length stays under 2 GiB.
pub proof fn texts_are_read_in_their_place(data: Seq<u8>, at: int)
    requires
        data.len() <= usize::MAX,
        text::text_end(data.skip(at)) <= i32::MAX,
    ensures
        text::text_at(data, at) matches Some((s, next)) ==> {
            &&& 0 <= at <= data.len()
            &&& text::first_text(data.skip(at)) == Some(s)
            &&& next == at + text::text_end(data.skip(at))
        },
        text::text_at(data, at) is None ==> at < 0 || at > data.len() || text::first_text(
            data.skip(at),
        ) is None,
{
    let rest = data.skip(at);
    if text::text_at(data, at) is Some {
        assert(rest.len() == data.len() - at);
        let next = at + text::text_end(rest);
        vstd::arithmetic::div_mod::lemma_small_mod(next as nat, (usize::MAX + 1) as nat);
    }
}

/// A packet is framed by the number of bytes of its number and its data, then these.
#[verifier::spinoff_prover]
#[verifier::rlimit(30)]
pub proof fn frames_are_counted_in_bytes(id: i32, data: Seq<u8>)
    requires
        data.len() + 5 <= i32::MAX,
    ensures
        ({
            let bytes = codec::frame(id, data);
            let body = bytes.skip(varint::size(bytes) as int);
            &&& varint::complete(bytes)
            &&& varint::low_bits(bytes) == body.len()
            &&& varint::complete(body)
            &&& varint::low_bits(body) == id
            &&& body.skip(varint::size(body) as int) == data
        }),
{
    let head = varint::wire_i32(id);
    varint::wire_i32_len(id);
    let body = head + data;
    let n = body.len() as i32;
    varint::decode_inverts_encode(n, body);
    varint::decode_inverts_encode(id, data);
    let bytes = codec::frame(id, data);
    assert(bytes =~= varint::wire_i32(n) + body);
    assert(bytes.skip(varint::wire_i32(n).len() as int) =~= body);
    assert(body.skip(head.len() as int) =~= data);
}

/// What a buffer holds is waited for until its length is complete and as many bytes follow it. Then
/// the packet number is read; what is left of the length is data, and what is left of the buffer
/// stays. A number that goes on fails, and so does one that reaches past the end of its frame.
pub proof fn frames_are_taken_apart_by_their_length(src: Seq<u8>)
    requires
        src.len() <= i32::MAX,
    ensures
        ({
            let length = varint::low_bits(src);
            let body = src.skip(varint::size(src) as int);
            let id = varint::low_bits(body);
            let id_size = varint::size(body) as int;
            if !varint::complete(src) {
                codec::head(src) is Partial
            } else if length < 0 {
                codec::head(src) is Partial || codec::head(src) is Broken
            } else if body.len() < length {
                codec::head(src) is Partial
            } else if body.len() == 0 {
                &&& codec::head(src) matches codec::Frame::Whole { packet, rest }
                &&& packet.length == 0
                &&& packet.id == 0
                &&& packet.data.len() == 0
                &&& rest.len() == 0
            } else if !varint::complete(body) {
                &&& codec::head(src) matches codec::Frame::NoId { rest }
                &&& rest == body.skip(id_size)
            } else if id_size > length {
                codec::head(src) is Broken
            } else {
                &&& codec::head(src) matches codec::Frame::Whole { packet, rest }
                &&& packet.length == length
                &&& packet.id == id
                &&& packet.data == body.subrange(id_size, length as int)
                &&& rest == body.skip(length as int)
            }
        }),
{
    varint::lemma_extent_bounds(src, 5);
    let length = varint::low_bits(src);
    let body = src.skip(varint::size(src) as int);
    let id_size = varint::size(body) as int;
    varint::lemma_extent_bounds(body, 5);
    if varint::complete(src) && 0 <= length && length <= body.len() && id_size <= length {
        let after = body.skip(id_size);
        assert(after.take(length - id_size) =~= body.subrange(id_size, length as int));
        assert(after.skip(length - id_size) =~= body.skip(length as int));
        if body.len() == 0 {
            assert(body =~= Seq::empty());
            assert(body.take(0) =~= Seq::empty());
        }
    }
}

/// The first packet of a byte string is found if its length is complete and not negative, as many
/// bytes follow, and its number is complete within them.
pub proof fn first_packet_is_within_its_length(data: Seq<u8>)
    requires
        varint::low_bits(data) >= 0,
    ensures
        ({
            let length = varint::low_bits(data);
            let first = varint::size(data) as int;
            let body = data.subrange(first, first + length);
            match codec::first_packet(data) {
                Some((packet, end)) => {
                    &&& varint::complete(data)
                    &&& end == first + length
                    &&& end <= data.len()
                    &&& varint::complete(body)
                    &&& packet.length == length
                    &&& packet.id == varint::low_bits(body)
                    &&& packet.data == body.skip(varint::size(body) as int)
                },
                None => !varint::complete(data) || first + length > data.len()
                    || !varint::complete(body),
            }
        }),
{
}

/// A packet whose length is negative is never found.
pub proof fn negative_lengths_hold_no_packet(data: Seq<u8>)
    requires
        varint::low_bits(data) < 0,
        data.len() <= i32::MAX,
    ensures
        codec::first_packet(data) is None,
{
}

/// A list of known packs is their number, then of each the namespace, the name and the version.
pub proof fn packs_are_listed_one_by_one(known: Seq<packs::PackView>, pack: packs::PackView)
    ensures
        packs::packs_wire(known) == serialize::count(known.len()) + packs::each_pack(known),
        packs::each_pack(Seq::empty()) == Seq::<u8>::empty(),
        packs::each_pack(known.push(pack)) == packs::each_pack(known) + (serialize::text(
            pack.namespace,
        ) + serialize::text(pack.id) + serialize::text(pack.version)),
{
    assert(known.push(pack).drop_last() =~= known);
}

/// The entry of a registry is the registry's name, the number of entries, which is one, the
/// entry's name, and that it has no data.
pub proof fn registries_have_one_entry(registry: Seq<char>, entry: Seq<char>)
    requires
        utf8::encode_utf8(registry).len() <= i32::MAX,
        utf8::encode_utf8(entry).len() <= i32::MAX,
    ensures
        ({
            let bytes = packs::entry_wire(registry, entry);
            let at = text::text_end(bytes);
            &&& text::first_text(bytes) == Some(registry)
            &&& bytes[at] == 1
            &&& text::first_text(bytes.skip(at + 1)) == Some(entry)
            &&& bytes.len() == at + 1 + text::text_end(bytes.skip(at + 1)) + 1
            &&& bytes.last() == 0
        }),
{
    let (a, b) = (serialize::text(registry), serialize::text(entry));
    let bytes = packs::entry_wire(registry, entry);
    let tail = seq![1u8] + b + seq![0u8];
    assert(bytes =~= a + tail);
    text::reading_inverts_writing(registry, tail);
    assert(bytes.skip(a.len() as int + 1) =~= b + seq![0u8]);
    text::reading_inverts_writing(entry, seq![0u8]);
}

/// A handshake is the protocol's number, the address, the port in two bytes, the higher first, and
/// the number of what is wanted next.
pub proof fn handshakes_are_written_in_order(h: login::HandshakeView)
    ensures
        login::handshake_wire(h) == varint::wire_i32(h.protocol) + serialize::text(h.address)
            + seq![(h.port / 256) as u8, (h.port % 256) as u8] + varint::wire_i32(h.next),
{
    reveal_with_fuel(num::be_bytes, 3);
    assert(num::be_bytes(h.port as nat, 2) =~= seq![(h.port / 256) as u8, (h.port % 256) as u8]);
}

/// The use of an item is the number of the hand, the position of the block, the number of the face,
/// twelve bytes for the cursor, two truth values and the number of the action.
pub proof fn uses_of_items_are_written_in_order(used: serverbound::UseItemView)
    ensures
        ({
            let (x, y, z) = used.position;
            serverbound::use_item_wire(used) == varint::wire_i32(used.hand) + serialize::position(
                x,
                y,
                z,
            ) + varint::wire_i32(used.face) + (num::be_bytes(used.cursor.0, 4) + num::be_bytes(
                used.cursor.1,
                4,
            ) + num::be_bytes(used.cursor.2, 4) + seq![
                if used.inside {
                    1u8
                } else {
                    0u8
                },
            ] + seq![
                if used.border_hit {
                    1u8
                } else {
                    0u8
                },
            ]) + varint::wire_i32(used.sequence)
        }),
{
}

/// A player action is read exactly if its status is complete, eight bytes of position and one of
/// the face follow, and its number is complete. Each lack has its own complaint.
pub proof fn actions_are_read_whole(data: Seq<u8>)
    ensures
        ({
            let at = varint::size(data) as int;
            let read = serverbound::player_action(data);
            if !varint::complete(data) {
                read == Err::<serverbound::PlayerActionView, Seq<char>>("VarInt too big"@)
            } else if data.len() < at + 8 {
                read == Err::<serverbound::PlayerActionView, Seq<char>>(
                    "Failed to decode packet serverbound/minecraft:"@ + "player_action"@
                        + ": Not enough bytes in buffer"@,
                )
            } else if data.len() == at + 8 {
                read == Err::<serverbound::PlayerActionView, Seq<char>>("Unknown error"@)
            } else if !varint::complete(data.skip(at + 9)) {
                read == Err::<serverbound::PlayerActionView, Seq<char>>("VarInt too big"@)
            } else {
                &&& read matches Ok(action)
                &&& action.status == varint::low_bits(data)
                &&& action.face == data[at + 8]
                &&& action.sequence == varint::low_bits(data.skip(at + 9))
                &&& serverbound::position_at(data, at) == Some(action.position)
            }
        }),
{
}

/// The use of an item is read exactly if its hand is complete, a position and a complete face
/// follow, then fourteen bytes, and its number is complete. Each lack has its own complaint.
pub proof fn uses_of_items_are_read_whole(data: Seq<u8>)
    ensures
        ({
            let at = varint::size(data) as int;
            let face = data.skip(at + 8);
            let next = at + 8 + varint::size(face);
            let read = serverbound::use_item(data);
            if !varint::complete(data) || data.len() < at + 8 || !varint::complete(face)
                || data.len() < next + 14 {
                read == Err::<serverbound::UseItemView, Seq<char>>(
                    "Failed to decode packet serverbound/minecraft:"@ + "use_item_on"@
                        + ": Not enough bytes in buffer"@,
                )
            } else if !varint::complete(data.skip(next + 14)) {
                read == Err::<serverbound::UseItemView, Seq<char>>("VarInt too big"@)
            } else {
                &&& read matches Ok(used)
                &&& used.hand == varint::low_bits(data)
                &&& used.face == varint::low_bits(face)
                &&& used.inside == (data[next + 12] != 0)
                &&& used.border_hit == (data[next + 13] != 0)
                &&& used.sequence == varint::low_bits(data.skip(next + 14))
                &&& serverbound::position_at(data, at) == Some(used.position)
            }
        }),
{
}

/// Items are read exactly if their number is complete and either zero or followed by three complete
/// numbers, of which the first is their kind.
pub proof fn items_are_read_whole(data: Seq<u8>)
    ensures
        ({
            let kind = data.skip(varint::size(data) as int);
            let added = kind.skip(varint::size(kind) as int);
            let removed = added.skip(varint::size(added) as int);
            let read = serverbound::slot(data);
            let broken = Err::<Option<(nat, i32)>, Seq<char>>("VarInt too big"@);
            if !varint::complete(data) {
                read == broken
            } else if varint::low_bits(data) == 0 {
                read == Ok::<Option<(nat, i32)>, Seq<char>>(None)
            } else if varint::complete(kind) && varint::complete(added) && varint::complete(
                removed,
            ) {
                &&& read matches Ok(Some((count, id)))
                &&& (count - varint::low_bits(data)) % 0x1_0000_0000 == 0
                &&& 0 < count < 0x1_0000_0000
                &&& id == varint::low_bits(kind)
            } else {
                read == broken
            }
        }),
{
}

/// Filling a slot needs two bytes for the slot, the higher first, and whole items.
pub proof fn creative_slots_are_read_whole(data: Seq<u8>)
    ensures
        if data.len() < 2 {
            serverbound::creative_slot(data) == Err::<(i16, Option<(nat, i32)>), Seq<char>>(
                "Failed to decode packet serverbound/minecraft:"@ + "set_creative_mode_slot"@
                    + ": Not enough bytes in buffer"@,
            )
        } else {
            match serverbound::slot(data.skip(2)) {
                Ok(items) => {
                    &&& serverbound::creative_slot(data) matches Ok((slot, read))
                    &&& (slot - data[0] * 256 - data[1]) % 0x1_0000 == 0
                    &&& read == items
                },
                Err(e) => serverbound::creative_slot(data) == Err::<
                    (i16, Option<(nat, i32)>),
                    Seq<char>,
                >(e),
            }
        },
{
    if data.len() >= 2 {
        reveal_with_fuel(num::be_value, 3);
        let d = data.take(2);
        assert(d.drop_last().last() == data[0]);
        assert(d.drop_last().drop_last().len() == 0);
    }
}

/// A handshake is read exactly if its address is and two bytes follow for the port; numbers that
/// are cut off count as far as they go.
pub proof fn handshakes_are_read_whole(data: Seq<u8>)
    ensures
        match (
            text::text_at(data, varint::size(data) as int),
            login::handshake(data),
        ) {
            (Some((address, at)), Some(h)) => {
                &&& at + 2 <= data.len()
                &&& h.protocol == varint::low_bits(data)
                &&& h.address == address
                &&& h.next == varint::low_bits(data.skip(at + 2))
            },
            (Some((address, at)), None) => at + 2 > data.len(),
            (None, h) => h is None,
        },
{
}

/// A login request is read exactly if its name is and sixteen bytes follow.
pub proof fn login_requests_are_read_whole(data: Seq<u8>)
    ensures
        match (text::text_at(data, 0), login::login_request(data)) {
            (Some((name, at)), Some((read, uuid))) => {
                &&& at + 16 <= data.len()
                &&& read == name
                &&& uuid == num::be_value(data.subrange(at, at + 16))
            },
            (Some((name, at)), None) => at + 16 > data.len(),
            (None, r) => r is None,
        },
{
}

/// A list of packs is read exactly if each of them is, text by text.
pub proof fn packs_are_read_one_by_one(data: Seq<u8>, at: int, n: nat)
    ensures
        packs::packs_at(data, at, 0) == Some(Seq::<packs::PackView>::empty()),
        match (packs::pack_at(data, at), packs::packs_at(data, at, n + 1)) {
            (Some((pack, next)), Some(known)) => {
                &&& known.len() > 0
                &&& known[0] == pack
                &&& packs::packs_at(data, next, n) == Some(known.skip(1))
            },
            (Some((pack, next)), None) => packs::packs_at(data, next, n) is None,
            (None, r) => r is None,
        },
        match packs::pack_at(data, at) {
            Some((pack, next)) => {
                &&& text::text_at(data, at) matches Some((a, second))
                &&& text::text_at(data, second) matches Some((b, third))
                &&& text::text_at(data, third) matches Some((c, end))
                &&& pack.namespace == a
                &&& pack.id == b
                &&& pack.version == c
                &&& next == end
            },
            None => {
                ||| text::text_at(data, at) is None
                ||| text::text_at(data, (text::text_at(data, at)->0).1) is None
                ||| text::text_at(
                    data,
                    (text::text_at(data, (text::text_at(data, at)->0).1)->0).1,
                ) is None
            },
        },
{
    if let (Some((pack, next)), Some(known)) = (
        packs::pack_at(data, at),
        packs::packs_at(data, at, n + 1),
    ) {
        assert(known.skip(1) =~= packs::packs_at(data, next, n)->0);
    }
}

/// A section of light that is as bright as can be has all bits of 2048 bytes set.
pub proof fn full_light_is_all_ones(i: int)
    requires
        0 <= i < 2048,
    ensures
        clientbound::full_light().len() == 2048,
        clientbound::full_light()[i] == 0xFF,
{
}

/// A place of death is told by a yes with its dimension and its position, or a no.
pub proof fn deaths_are_told_or_not(dimension: String, x: i32, y: i16, z: i32)
    ensures
        login::death_wire(Some((dimension, (x, z, y)))) == seq![1u8] + serialize::text(dimension@)
            + serialize::position(x as int, y as int, z as int),
        login::death_wire(None) == seq![0u8],
{
}

/// A list of texts is their number, then one after the other.
pub proof fn texts_are_listed_one_by_one(texts: Seq<Seq<char>>, last: Seq<char>)
    ensures
        login::text_list(texts) == serialize::count(texts.len()) + login::each_text(texts),
        login::each_text(Seq::empty()) == Seq::<u8>::empty(),
        login::each_text(texts.push(last)) == login::each_text(texts) + serialize::text(last),
{
    assert(texts.push(last).drop_last() =~= texts);
}

/// A list is the number of its elements, then one after the other.
pub proof fn lists_are_written_one_by_one<T: serialize::Serialize>(items: Seq<T>, last: T)
    ensures
        serialize::list(items) == serialize::count(items.len()) + serialize::each(items),
        serialize::each(Seq::<T>::empty()) == Seq::<u8>::empty(),
        serialize::each(items.push(last)) == serialize::each(items) + last.wire(),
{
    assert(items.push(last).drop_last() =~= items);
}

/// Numbers, bytes, truth values, texts, positions and values that may be missing each have their
/// own wire form.
pub proof fn values_have_their_wire_forms<T: serialize::Serialize>(
    n: i32,
    b: u8,
    yes: bool,
    s: String,
    place: (i32, i32, i16),
    item: T,
    items: Vec<T>,
)
    ensures
        n.wire() == varint::wire_i32(n),
        varint::VarInt(n).wire() == varint::wire_i32(n),
        b.wire() == seq![b],
        yes.wire() == seq![
            if yes {
                1u8
            } else {
                0u8
            },
        ],
        s.wire() == serialize::text(s@),
        items.wire() == serialize::list(items@),
        place.wire() == serialize::position(place.0 as int, place.2 as int, place.1 as int),
        Some(item).wire() == seq![1u8] + item.wire(),
        None::<T>.wire() == seq![0u8],
{
}

/// A set of the lowest `n` bits is one word, which is one less than the next power of two.
pub proof fn full_sets_have_their_bits(n: nat)
    requires
        n <= 64,
    ensures
        ({
            let bytes = clientbound::full_bits(n);
            &&& bytes.len() == 9
            &&& bytes[0] == 1
            &&& num::be_value(bytes.skip(1)) == power2::pow2(n) - 1
        }),
{
    power2::lemma_pow2_pos(n);
    assert(power2::pow2(n) <= power2::pow2(64)) by {
        if n < 64 {
            power2::lemma_pow2_strictly_increases(n, 64);
        }
    }
    power2::lemma2_to64();
    num::lemma_pow256_values();
    num::be_round_trip((power2::pow2(n) - 1) as nat, 8);
    assert(clientbound::full_bits(n).skip(1) =~= num::be_bytes((power2::pow2(n) - 1) as nat, 8));
}

proof fn lemma_repeated_len(unit: Seq<u8>, n: nat)
    ensures
        clientbound::repeated(unit, n).len() == n * unit.len(),
    decreases n,
{
    let u = unit.len() as int;
    if n > 0 {
        lemma_repeated_len(unit, (n - 1) as nat);
        assert((n - 1) * u + u == n * u) by (nonlinear_arith);
    } else {
        assert(0 * u == 0);
    }
}

proof fn lemma_cut_front(before: Seq<u8>, unit: Seq<u8>, from: int, to: int)
    requires
        0 <= from <= to <= before.len(),
    ensures
        (before + unit).subrange(from, to) == before.subrange(from, to),
{
    assert((before + unit).subrange(from, to) =~= before.subrange(from, to));
}

proof fn lemma_cut_back(before: Seq<u8>, unit: Seq<u8>, from: int, to: int)
    requires
        from == before.len(),
        to == before.len() + unit.len(),
    ensures
        (before + unit).subrange(from, to) == unit,
{
    assert((before + unit).subrange(from, to) =~= unit);
}

proof fn lemma_repeated(unit: Seq<u8>, n: nat, k: int)
    requires
        0 <= k < n,
    ensures
        0 <= k * unit.len() <= (k + 1) * unit.len() <= n * unit.len(),
        clientbound::repeated(unit, n).subrange(k * unit.len(), (k + 1) * unit.len()) == unit,
    decreases n,
{
    let u = unit.len() as int;
    let m = (n - 1) as nat;
    let before = clientbound::repeated(unit, m);
    lemma_repeated_len(unit, m);
    assert(0 <= k * u && k * u + u == (k + 1) * u && (k + 1) * u <= n * u) by (nonlinear_arith)
        requires
            0 <= k < n,
            u >= 0,
    ;
    if k < m {
        lemma_repeated(unit, m, k);
        lemma_cut_front(before, unit, k * u, (k + 1) * u);
    } else {
        lemma_cut_back(before, unit, k * u, (k + 1) * u);
    }
}

/// Bytes that are repeated stand at every multiple of their number, as often as they should.
pub proof fn repeated_bytes_stand_at_multiples(unit: Seq<u8>, n: nat, k: int)
    requires
        0 <= k < n,
    ensures
        clientbound::repeated(unit, n).len() == n * unit.len(),
        clientbound::repeated(unit, n).subrange(k * unit.len(), (k + 1) * unit.len()) == unit,
{
    lemma_repeated_len(unit, n);
    lemma_repeated(unit, n, k);
}

/// Plain chunks differ only in their coordinates, which stand first, of four bytes each.
pub proof fn plain_chunks_differ_in_their_place(x: i32, z: i32)
    ensures
        ({
            let bytes = clientbound::plain_chunk_wire(x, z);
            &&& bytes.len() >= 8
            &&& (num::be_value(bytes.subrange(0, 4)) - x) % 0x1_0000_0000 == 0
            &&& (num::be_value(bytes.subrange(4, 8)) - z) % 0x1_0000_0000 == 0
            &&& bytes.skip(8) == clientbound::plain_chunk_wire(0, 0).skip(8)
        }),
{
    lemma_plain_chunk(x, z);
    lemma_plain_chunk(0, 0);
}

/// What follows the coordinates of a plain chunk.
spec fn plain_rest() -> Seq<u8> {
    serialize::count(0) + serialize::count(144) + clientbound::repeated(
        clientbound::plain_section(0x1000, 1, 55),
        2,
    ) + clientbound::repeated(clientbound::plain_section(0, 0, 55), 22) + serialize::count(0)
        + clientbound::full_bits(26) + seq![0u8] + seq![0u8] + clientbound::full_bits(26)
        + serialize::count(26) + clientbound::repeated(
        serialize::count(2048) + clientbound::full_light(),
        26,
    ) + serialize::count(0)
}

#[verifier::spinoff_prover]
#[verifier::rlimit(50)]
proof fn lemma_plain_chunk(x: i32, z: i32)
    ensures
        ({
            let bytes = clientbound::plain_chunk_wire(x, z);
            &&& bytes.len() >= 8
            &&& (num::be_value(bytes.subrange(0, 4)) - x) % 0x1_0000_0000 == 0
            &&& (num::be_value(bytes.subrange(4, 8)) - z) % 0x1_0000_0000 == 0
            &&& bytes.skip(8) == plain_rest()
        }),
{
    let a = num::be_bytes(num::twos32(x as int), 4);
    let b = num::be_bytes(num::twos32(z as int), 4);
    num::lemma_pow256_values();
    num::be_round_trip(num::twos32(x as int), 4);
    num::be_round_trip(num::twos32(z as int), 4);
    let bytes = clientbound::plain_chunk_wire(x, z);
    assert(bytes =~= a + b + plain_rest());
    assert(bytes.subrange(0, 4) =~= a);
    assert(bytes.subrange(4, 8) =~= b);
    assert(bytes.skip(8) =~= plain_rest());
}

/// In a plain chunk, the sections follow eleven bytes, six bytes each: the two lowest are all
/// stone, the others all air, and all are of biome 55.
pub proof fn plain_chunks_are_stone_under_air(x: i32, z: i32, k: int)
    requires
        0 <= k < 24,
    ensures
        clientbound::plain_chunk_wire(x, z).subrange(8, 11) == seq![0u8, 0x90, 1],
        clientbound::plain_chunk_wire(x, z).subrange(11 + 6 * k, 17 + 6 * k) == if k < 2 {
            seq![0x10u8, 0, 0, 1, 0, 55]
        } else {
            seq![0u8, 0, 0, 0, 0, 55]
        },
{
    lemma_plain_chunk(x, z);
    let bytes = clientbound::plain_chunk_wire(x, z);
    let stone = clientbound::plain_section(0x1000, 1, 55);
    let air = clientbound::plain_section(0, 0, 55);
    assert(stone =~= seq![0x10u8, 0, 0, 1, 0, 55]) by {
        reveal_with_fuel(num::be_bytes, 3);
    }
    assert(air =~= seq![0u8, 0, 0, 0, 0, 55]) by {
        reveal_with_fuel(num::be_bytes, 3);
    }
    let stones = clientbound::repeated(stone, 2);
    let airs = clientbound::repeated(air, 22);
    lemma_repeated_len(stone, 2);
    lemma_repeated_len(air, 22);
    let tail = serialize::count(0) + clientbound::full_bits(26) + seq![0u8] + seq![0u8]
        + clientbound::full_bits(26) + serialize::count(26) + clientbound::repeated(
        serialize::count(2048) + clientbound::full_light(),
        26,
    ) + serialize::count(0);
    assert(plain_rest() == seq![0u8] + seq![0x90u8, 1] + stones + airs + tail) by {
        lemma_plain_rest(stones, airs);
    }
    lemma_plain_sections(bytes, stones, airs, tail, k);
    if k < 2 {
        lemma_repeated(stone, 2, k);
    } else {
        lemma_repeated(air, 22, k - 2);
    }
}

#[verifier::spinoff_prover]
#[verifier::rlimit(50)]
proof fn lemma_plain_rest(stones: Seq<u8>, airs: Seq<u8>)
    requires
        stones == clientbound::repeated(clientbound::plain_section(0x1000, 1, 55), 2),
        airs == clientbound::repeated(clientbound::plain_section(0, 0, 55), 22),
    ensures
        plain_rest() == seq![0u8] + seq![0x90u8, 1] + stones + airs + (serialize::count(0)
            + clientbound::full_bits(26) + seq![0u8] + seq![0u8] + clientbound::full_bits(26)
            + serialize::count(26) + clientbound::repeated(
            serialize::count(2048) + clientbound::full_light(),
            26,
        ) + serialize::count(0)),
{
    assert(serialize::count(0) =~= seq![0u8]) by {
        reveal_with_fuel(varint::wire, 2);
    }
    assert(serialize::count(144) =~= seq![0x90u8, 1]) by {
        reveal_with_fuel(varint::wire, 3);
    }
    let tail = serialize::count(0) + clientbound::full_bits(26) + seq![0u8] + seq![0u8]
        + clientbound::full_bits(26) + serialize::count(26) + clientbound::repeated(
        serialize::count(2048) + clientbound::full_light(),
        26,
    ) + serialize::count(0);
    assert(plain_rest() =~= seq![0u8] + seq![0x90u8, 1] + stones + airs + tail);
}

#[verifier::spinoff_prover]
#[verifier::rlimit(50)]
proof fn lemma_plain_sections(
    bytes: Seq<u8>,
    stones: Seq<u8>,
    airs: Seq<u8>,
    tail: Seq<u8>,
    k: int,
)
    requires
        0 <= k < 24,
        bytes.len() >= 8,
        stones.len() == 12,
        airs.len() == 132,
        bytes.skip(8) == plain_rest(),
        plain_rest() == seq![0u8] + seq![0x90u8, 1] + stones + airs + tail,
    ensures
        bytes.subrange(8, 11) == seq![0u8, 0x90, 1],
        k < 2 ==> bytes.subrange(11 + 6 * k, 17 + 6 * k) == stones.subrange(6 * k, 6 * k + 6),
        k >= 2 ==> bytes.subrange(11 + 6 * k, 17 + 6 * k) == airs.subrange(
            6 * (k - 2),
            6 * (k - 2) + 6,
        ),
{
    let rest = seq![0u8] + seq![0x90u8, 1] + stones + airs + tail;
    assert(forall|i: int| 8 <= i < bytes.len() ==> bytes[i] == bytes.skip(8)[i - 8]);
    assert(bytes.len() == 8 + rest.len());
    assert(bytes.subrange(8, 11) =~= seq![0u8, 0x90, 1]);
    if k < 2 {
        assert(bytes.subrange(11 + 6 * k, 17 + 6 * k) =~= stones.subrange(6 * k, 6 * k + 6));
    } else {
        assert(bytes.subrange(11 + 6 * k, 17 + 6 * k) =~= airs.subrange(
            6 * (k - 2),
            6 * (k - 2) + 6,
        ));
    }
}

} // verus!
