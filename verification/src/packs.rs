//! The configuration of a client: known packs, plugin messages, registries and tags.
use vstd::prelude::*;
use vstd::utf8;

use crate::codec;
use crate::num;
use crate::serialize;
use crate::serialize::Serialize;
use crate::text;
use crate::varint;
use crate::varint::VarInt;

verus! {

/// A pack of data that both sides may have.
pub struct KnownPack {
    pub namespace: String,
    pub id: String,
    pub version: String,
}

/// The texts of a known pack.
#[verifier::ext_equal]
pub struct PackView {
    pub namespace: Seq<char>,
    pub id: Seq<char>,
    pub version: Seq<char>,
}

impl View for KnownPack {
    type V = PackView;

    open spec fn view(&self) -> PackView {
        PackView { namespace: self.namespace@, id: self.id@, version: self.version@ }
    }
}

/// The wire form of a known pack.
pub open spec fn pack_wire(pack: PackView) -> Seq<u8> {
    serialize::text(pack.namespace) + serialize::text(pack.id) + serialize::text(pack.version)
}

/// The wire forms of known packs, one after the other.
pub open spec fn each_pack(packs: Seq<PackView>) -> Seq<u8>
    decreases packs.len(),
{
    if packs.len() == 0 {
        Seq::empty()
    } else {
        each_pack(packs.drop_last()) + pack_wire(packs.last())
    }
}

/// The wire form of a list of known packs.
pub open spec fn packs_wire(packs: Seq<PackView>) -> Seq<u8> {
    serialize::count(packs.len()) + each_pack(packs)
}

/// The known pack at place `at`, and the place that follows it.
pub open spec fn pack_at(data: Seq<u8>, at: int) -> Option<(PackView, int)> {
    match text::text_at(data, at) {
        Some((namespace, at)) => match text::text_at(data, at) {
            Some((id, at)) => match text::text_at(data, at) {
                Some((version, at)) => Some((PackView { namespace, id, version }, at)),
                None => None,
            },
            None => None,
        },
        None => None,
    }
}

/// The `n` known packs from place `at` on.
pub open spec fn packs_at(data: Seq<u8>, at: int, n: nat) -> Option<Seq<PackView>>
    decreases n,
{
    if n == 0 {
        Some(Seq::empty())
    } else {
        match pack_at(data, at) {
            Some((pack, next)) => match packs_at(data, next, (n - 1) as nat) {
                Some(rest) => Some(seq![pack] + rest),
                None => None,
            },
            None => None,
        }
    }
}

/// The known packs that a packet lists.
pub open spec fn listed_packs(data: Seq<u8>) -> Option<Seq<PackView>> {
    packs_at(data, varint::size(data) as int, varint::low_bits(data) as nat)
}

/// The known packs that a packet lists. Their number must not be negative.
pub fn parse_known_packs(data: &[u8]) -> (r: Option<Vec<KnownPack>>)
    requires
        varint::low_bits(data@) >= 0,
    ensures
        match r {
            Some(packs) => listed_packs(data@) == Some(packs@.map_values(|p: KnownPack| p@)),
            None => listed_packs(data@) is None,
        },
{
    let (read, count) = VarInt::decode_loose(data);
    let count: i32 = count.value();
    let mut pointer: usize = read;
    let mut packs: Vec<KnownPack> = Vec::new();
    let mut i: i32 = 0;
    while i < count
        invariant
            0 <= i <= count,
            count == varint::low_bits(data@),
            match packs_at(data@, pointer as int, (count - i) as nat) {
                Some(rest) => listed_packs(data@) == Some(
                    packs@.map_values(|p: KnownPack| p@) + rest,
                ),
                None => listed_packs(data@) is None,
            },
        decreases count - i,
    {
        let (namespace, next): (String, usize) = match text::string_at(data, pointer) {
            Some(r) => r,
            None => return None,
        };
        let (id, next): (String, usize) = match text::string_at(data, next) {
            Some(r) => r,
            None => return None,
        };
        let (version, next): (String, usize) = match text::string_at(data, next) {
            Some(r) => r,
            None => return None,
        };
        let pack = KnownPack { namespace, id, version };
        let ghost before = packs@.map_values(|p: KnownPack| p@);
        let ghost view = pack@;
        packs.push(pack);
        pointer = next;
        i += 1;
        proof {
            assert(packs@.map_values(|p: KnownPack| p@) =~= before.push(view));
            match packs_at(data@, pointer as int, (count - i) as nat) {
                Some(rest) => {
                    assert(before + (seq![view] + rest) =~= before.push(view) + rest);
                },
                None => {},
            }
        }
    }
    assert(packs@.map_values(|p: KnownPack| p@) + Seq::<PackView>::empty() =~= packs@.map_values(
        |p: KnownPack| p@,
    ));
    Some(packs)
}

/// Whether the number of known packs that a packet lists is not negative.
pub fn known_packs_count_is_valid(data: &[u8]) -> (r: bool)
    ensures
        r == (varint::low_bits(data@) >= 0),
{
    let (_, count) = VarInt::decode_loose(data);
    count.value() >= 0
}

/// Appends the wire form of a list of known packs.
pub fn create_known_packs(packs: Vec<KnownPack>, buf: &mut Vec<u8>)
    ensures
        final(buf)@ == old(buf)@ + packs_wire(packs@.map_values(|p: KnownPack| p@)),
{
    let ghost views = packs@.map_values(|p: KnownPack| p@);
    serialize::push_count(buf, packs.len());
    let ghost head = buf@;
    for i in 0..packs.len()
        invariant
            views == packs@.map_values(|p: KnownPack| p@),
            buf@ == head + each_pack(views.take(i as int)),
    {
        assert(views.take(i + 1).drop_last() == views.take(i as int));
        serialize::push(buf, &packs[i].namespace);
        serialize::push(buf, &packs[i].id);
        serialize::push(buf, &packs[i].version);
        assert(buf@ =~= head + each_pack(views.take(i + 1)));
    }
    assert(views.take(packs@.len() as int) == views);
    assert(buf@ =~= old(buf)@ + packs_wire(views));
}

/// The channel and the message of a plugin message.
pub open spec fn plugin_message(data: Seq<u8>) -> Option<(Seq<char>, Seq<char>)> {
    match text::text_at(data, 0) {
        Some((channel, at)) => match text::text_at(data, at) {
            Some((message, _)) => Some((channel, message)),
            None => None,
        },
        None => None,
    }
}

/// The channel and the message of a plugin message.
pub fn decode_plugin_message(data: &[u8]) -> (r: Option<(String, String)>)
    ensures
        match r {
            Some((channel, message)) => plugin_message(data@) == Some((channel@, message@)),
            None => plugin_message(data@) is None,
        },
{
    let (channel, at): (String, usize) = match text::string_at(data, 0) {
        Some(r) => r,
        None => return None,
    };
    match text::string_at(data, at) {
        Some((message, _)) => Some((channel, message)),
        None => None,
    }
}

/// Reading a plugin message gives back the channel and the message that were written, whatever
/// follows them.
pub proof fn plugin_message_round_trip(channel: Seq<char>, message: Seq<char>, rest: Seq<u8>)
    requires
        serialize::text(channel).len() <= i32::MAX,
        utf8::encode_utf8(message).len() <= i32::MAX,
        serialize::text(channel).len() + serialize::text(message).len() + rest.len() <= usize::MAX,
    ensures
        plugin_message(serialize::text(channel) + serialize::text(message) + rest) == Some(
            (channel, message),
        ),
{
    let (a, b) = (serialize::text(channel), serialize::text(message));
    let data = a + b + rest;
    assert(data =~= Seq::<u8>::empty() + a + (b + rest));
    text::reading_in_place(Seq::empty(), channel, b + rest);
    assert(data.skip(a.len() as int) =~= b + rest);
    text::reading_inverts_writing(message, rest);
}

/// The wire form of a registry with one entry that has no data of its own.
pub open spec fn entry_wire(registry: Seq<char>, entry: Seq<char>) -> Seq<u8> {
    serialize::text(registry) + seq![1u8] + serialize::text(entry) + seq![0u8]
}

/// A registry with one entry that has no data of its own.
pub fn create_entry(registry: &str, entry: &str) -> (out: Vec<u8>)
    ensures
        out@ == entry_wire(registry@, entry@),
{
    let mut result = registry.serialize();
    result.push(1);
    serialize::push(&mut result, &entry);
    result.push(0);
    assert(result@ =~= entry_wire(registry@, entry@));
    result
}

/// The number of the packet that carries a registry.
pub const REGISTRY_DATA: i32 = 7;

/// The packets of four registries with one entry each.
pub open spec fn registry_wire() -> Seq<u8> {
    codec::frame(
        REGISTRY_DATA,
        entry_wire("minecraft:worldgen/biome"@, "minecraft:plains"@),
    ) + codec::frame(REGISTRY_DATA, entry_wire("minecraft:chat_type"@, "minecraft:chat"@))
        + codec::frame(
        REGISTRY_DATA,
        entry_wire("minecraft:dimension_type"@, "minecraft:overworld"@),
    ) + codec::frame(
        REGISTRY_DATA,
        entry_wire("minecraft:damage_type"@, "minecraft:out_of_world"@),
    )
}

/// The packet of a registry with one entry.
fn registry_packet(registry: &str, entry: &str) -> (out: Vec<u8>)
    requires
        entry_wire(registry@, entry@).len() <= 1000,
    ensures
        out@ == codec::frame(REGISTRY_DATA, entry_wire(registry@, entry@)),
{
    proof {
        varint::wire_i32_len(REGISTRY_DATA);
    }
    codec::assemble(REGISTRY_DATA, create_entry(registry, entry).as_slice())
}

proof fn lemma_ascii_text_len(s: Seq<char>)
    requires
        utf8::is_ascii_chars(s),
        s.len() <= i32::MAX,
    ensures
        serialize::text(s).len() <= s.len() + varint::MAX_LEN,
{
    utf8::is_ascii_chars_encode_utf8(s);
    varint::wire_i32_len(num::signed32(utf8::encode_utf8(s).len() as int));
}

/// The packets of four registries with one entry each.
pub fn create_registry() -> (r: Option<Vec<u8>>)
    ensures
        r is Some,
        r->0@ == registry_wire(),
{
    proof {
        reveal_strlit("minecraft:worldgen/biome");
        reveal_strlit("minecraft:plains");
        reveal_strlit("minecraft:chat_type");
        reveal_strlit("minecraft:chat");
        reveal_strlit("minecraft:dimension_type");
        reveal_strlit("minecraft:overworld");
        reveal_strlit("minecraft:damage_type");
        reveal_strlit("minecraft:out_of_world");
        lemma_ascii_text_len("minecraft:worldgen/biome"@);
        lemma_ascii_text_len("minecraft:plains"@);
        lemma_ascii_text_len("minecraft:chat_type"@);
        lemma_ascii_text_len("minecraft:chat"@);
        lemma_ascii_text_len("minecraft:dimension_type"@);
        lemma_ascii_text_len("minecraft:overworld"@);
        lemma_ascii_text_len("minecraft:damage_type"@);
        lemma_ascii_text_len("minecraft:out_of_world"@);
    }
    let mut buf: Vec<u8> = registry_packet("minecraft:worldgen/biome", "minecraft:plains");
    let mut chat = registry_packet("minecraft:chat_type", "minecraft:chat");
    let mut dimension = registry_packet("minecraft:dimension_type", "minecraft:overworld");
    let mut damage = registry_packet("minecraft:damage_type", "minecraft:out_of_world");
    buf.append(&mut chat);
    buf.append(&mut dimension);
    buf.append(&mut damage);
    Some(buf)
}

/// A tags packet without tags, whatever the registries hold.
pub fn create_tags(_registries: Vec<(String, Vec<(String, Vec<VarInt>)>)>) -> (out: Vec<u8>)
    ensures
        out@ == seq![0x02u8, 0x0D, 0x00],
{
    vec![0x02, 0x0D, 0x00]
}

/// Whether each text of a known pack, with its length, stays under 2 GiB.
pub open spec fn pack_fits(pack: PackView) -> bool {
    &&& serialize::text(pack.namespace).len() <= i32::MAX
    &&& serialize::text(pack.id).len() <= i32::MAX
    &&& serialize::text(pack.version).len() <= i32::MAX
}

/// Reading a list of known packs gives back the packs that were written, whatever follows them.
#[verifier::spinoff_prover]
#[verifier::rlimit(30)]
pub proof fn parse_inverts_create(packs: Seq<PackView>, rest: Seq<u8>)
    requires
        packs.len() <= i32::MAX,
        forall|k: int| 0 <= k < packs.len() ==> pack_fits(#[trigger] packs[k]),
        packs_wire(packs).len() + rest.len() <= usize::MAX,
    ensures
        listed_packs(packs_wire(packs) + rest) == Some(packs),
        varint::low_bits(packs_wire(packs) + rest) == packs.len(),
{
    let data = packs_wire(packs) + rest;
    let n = packs.len() as i32;
    let head = varint::wire_i32(n);
    assert(serialize::count(packs.len()) == head);
    assert(varint::low_bits(data) == n && varint::size(data) == head.len()) by {
        assert(data =~= head + (each_pack(packs) + rest));
        varint::decode_inverts_encode(n, each_pack(packs) + rest);
    }
    assert(packs_at(data, head.len() as int, packs.len()) == Some(packs)) by {
        assert(data =~= head + each_pack(packs) + rest);
        lemma_packs_read(head, packs, rest);
    }
}

proof fn lemma_each_pack_first(packs: Seq<PackView>)
    requires
        packs.len() > 0,
    ensures
        each_pack(packs) == pack_wire(packs[0]) + each_pack(packs.skip(1)),
    decreases packs.len(),
{
    if packs.len() == 1 {
        assert(packs.drop_last() == Seq::<PackView>::empty());
        assert(packs.skip(1) == Seq::<PackView>::empty());
        reveal_with_fuel(each_pack, 2);
    } else {
        lemma_each_pack_first(packs.drop_last());
        assert(packs.drop_last().skip(1) == packs.skip(1).drop_last());
    }
}

#[verifier::spinoff_prover]
#[verifier::rlimit(30)]
proof fn lemma_pack_read(before: Seq<u8>, pack: PackView, rest: Seq<u8>)
    requires
        pack_fits(pack),
        before.len() + pack_wire(pack).len() + rest.len() <= usize::MAX,
    ensures
        pack_at(before + pack_wire(pack) + rest, before.len() as int) == Some(
            (pack, (before.len() + pack_wire(pack).len()) as int),
        ),
{
    let data = before + pack_wire(pack) + rest;
    let (a, b, c) = (
        serialize::text(pack.namespace),
        serialize::text(pack.id),
        serialize::text(pack.version),
    );
    let at = before.len() as int;
    let second = at + a.len();
    let third = second + b.len();
    assert(text::text_at(data, at) == Some((pack.namespace, second))) by {
        assert(data =~= before + a + (b + c + rest));
        text::reading_in_place(before, pack.namespace, b + c + rest);
    }
    assert(text::text_at(data, second) == Some((pack.id, third))) by {
        assert(data =~= (before + a) + b + (c + rest));
        text::reading_in_place(before + a, pack.id, c + rest);
    }
    assert(text::text_at(data, third) == Some((pack.version, third + c.len()))) by {
        assert(data =~= (before + a + b) + c + rest);
        text::reading_in_place(before + a + b, pack.version, rest);
    }
}

#[verifier::spinoff_prover]
#[verifier::rlimit(30)]
proof fn lemma_packs_read(before: Seq<u8>, packs: Seq<PackView>, rest: Seq<u8>)
    requires
        forall|k: int| 0 <= k < packs.len() ==> pack_fits(#[trigger] packs[k]),
        before.len() + each_pack(packs).len() + rest.len() <= usize::MAX,
    ensures
        packs_at(before + each_pack(packs) + rest, before.len() as int, packs.len()) == Some(packs),
    decreases packs.len(),
{
    if packs.len() == 0 {
        assert(packs == Seq::<PackView>::empty());
    } else {
        let pack = pack_wire(packs[0]);
        let others = packs.skip(1);
        let data = before + each_pack(packs) + rest;
        let at = before.len() as int;
        let next = (before + pack).len() as int;
        lemma_each_pack_first(packs);
        assert(pack_at(data, at) == Some((packs[0], next))) by {
            assert(data =~= before + pack + (each_pack(others) + rest));
            lemma_pack_read(before, packs[0], each_pack(others) + rest);
        }
        assert(packs_at(data, next, others.len()) == Some(others)) by {
            assert(data =~= (before + pack) + each_pack(others) + rest);
            lemma_packs_read(before + pack, others, rest);
        }
        assert(packs =~= seq![packs[0]] + others);
    }
}

} // verus!
