//! What a client is answered, from the handshake to the game.
use vstd::prelude::*;
use vstd::utf8;

use crate::codec;
use crate::config::Settings;
use crate::login;
use crate::num;
use crate::packs;
use crate::serialize;
use crate::session;
use crate::session::{Next, Phase};
use crate::status;
use crate::text;
use crate::varint;

verus! {

/// Whether all that is known of the client is the same.
pub open spec fn same_client(a: session::SessionView, b: session::SessionView) -> bool {
    &&& a.protocol == b.protocol
    &&& a.address == b.address
    &&& a.port == b.port
    &&& a.name == b.name
    &&& a.uuid == b.uuid
}

/// A client that tells which packs it knows, however many and whichever they are, is sent
/// registries and tags, is told that the configuration is finished, and is waited for.
pub proof fn any_known_packs_finish_the_configuration(
    s: session::SessionView,
    known: Seq<packs::PackView>,
    rest: Seq<u8>,
    length: i32,
    settings: Settings,
    online: i32,
)
    requires
        s.phase == Phase::Configuration,
        known.len() <= i32::MAX,
        forall|k: int| 0 <= k < known.len() ==> packs::pack_fits(#[trigger] known[k]),
        packs::packs_wire(known).len() + rest.len() <= usize::MAX,
    ensures
        ({
            let data = packs::packs_wire(known) + rest;
            let p = session::EventView::Packet(codec::PacketView { length, id: 0x07, data });
            let (after, step) = session::advanced(s, p, settings, online);
            &&& after.phase == Phase::FinishAck
            &&& same_client(after, s)
            &&& step.next == Next::Read
            &&& step.send.len() == 3
            &&& step.send[0] is RegistryData
            &&& step.send[1] is UpdateTags
            &&& step.send[2] == (session::MessageView::Packet { id: 0x03, data: Seq::empty() })
        }),
{
    packs::parse_inverts_create(known, rest);
}

/// A list of known packs that is not all there, or whose number is negative, ends the connection
/// without a word.
pub proof fn broken_known_packs_end_the_connection(
    s: session::SessionView,
    p: codec::PacketView,
    settings: Settings,
    online: i32,
)
    requires
        s.phase == Phase::Configuration,
        p.id == 0x07,
        varint::low_bits(p.data) < 0 || packs::listed_packs(p.data) is None,
    ensures
        ({
            let (after, step) = session::advanced(
                s,
                session::EventView::Packet(p),
                settings,
                online,
            );
            &&& after.phase == Phase::Closed
            &&& step.next == Next::Abort
            &&& step.send.len() == 0
        }),
{
}

/// While the client is configured, any other packet and any bytes that are no packet are passed
/// over: nothing changes and nothing is sent.
pub proof fn other_configuration_is_passed_over(
    s: session::SessionView,
    event: session::EventView,
    settings: Settings,
    online: i32,
)
    requires
        s.phase == Phase::Configuration,
        event is Invalid || (event matches session::EventView::Packet(p) && p.id != 0x07),
    ensures
        ({
            let (after, step) = session::advanced(s, event, settings, online);
            &&& after == s
            &&& step.next == Next::Read
            &&& step.send.len() == 0
        }),
{
}

/// A handshake is remembered. A client that wants to play is counted, any other is asked for its
/// request.
pub proof fn handshakes_are_remembered(
    s: session::SessionView,
    h: login::HandshakeView,
    rest: Seq<u8>,
    length: i32,
    id: i32,
    settings: Settings,
    online: i32,
)
    requires
        s.phase == Phase::Handshake,
        serialize::text(h.address).len() <= i32::MAX,
        login::handshake_wire(h).len() + rest.len() <= usize::MAX,
    ensures
        ({
            let data = login::handshake_wire(h) + rest;
            let p = session::EventView::Packet(codec::PacketView { length, id, data });
            let (after, step) = session::advanced(s, p, settings, online);
            &&& after.protocol == h.protocol
            &&& after.address == h.address
            &&& after.port == h.port
            &&& after.name == s.name
            &&& after.uuid == s.uuid
            &&& step.send.len() == 0
            &&& if h.next == 2 {
                after.phase == Phase::Admission && step.next == Next::Count
            } else {
                after.phase == Phase::Status && step.next == Next::Read
            }
        }),
{
    login::handshake_round_trip(h, rest);
}

/// A player is let in as long as fewer were in the game before them than there may be. Else they
/// are sent one packet with the reason, and all is done.
pub proof fn players_are_let_in_up_to_the_limit(
    s: session::SessionView,
    before: i32,
    max_players: i32,
)
    requires
        s.phase == Phase::Admission,
    ensures
        ({
            let (after, step) = session::counted_in(s, before, max_players);
            &&& same_client(after, s)
            &&& if before < max_players {
                &&& after.phase == Phase::LoginStart
                &&& step.next == Next::Read
                &&& step.send.len() == 0
            } else {
                &&& after.phase == Phase::Closed
                &&& step.next == Next::Done
                &&& step.send.len() == 1
                &&& step.send[0] matches session::MessageView::Raw(bytes)
                &&& codec::first_packet(bytes) matches Some((p, end))
                &&& p.id == 0
                &&& text::first_text(p.data) == Some("{\"text\": \"The server is full!\"}"@)
                &&& end == bytes.len()
            }
        }),
{
    if before >= max_players {
        let s = "{\"text\": \"The server is full!\"}"@;
        let data = serialize::text(s);
        reveal_strlit("{\"text\": \"The server is full!\"}");
        assert(utf8::encode_utf8(s).len() <= 4 * s.len()) by {
            lemma_encoded_len(s);
        }
        varint::wire_i32_len(utf8::encode_utf8(s).len() as i32);
        varint::wire_i32_len(0);
        assert(data.len() <= 200);
        assert(data + Seq::empty() =~= data);
        assert(session::disconnect() + Seq::empty() =~= session::disconnect());
        codec::first_packet_inverts_frame(0, data, Seq::empty());
        text::reading_inverts_writing(s, Seq::empty());
    }
}

/// A character takes at most four bytes.
pub proof fn lemma_encoded_len(s: Seq<char>)
    ensures
        utf8::encode_utf8(s).len() <= 4 * s.len(),
    decreases s.len(),
{
    reveal_with_fuel(utf8::encode_utf8, 2);
    if s.len() > 0 {
        lemma_encoded_len(s.drop_first());
    }
}

/// Whatever packet asks for the status, the answer is one packet with a text that says the version,
/// the number of players and of those there may be, and the greeting. The protocol in it is the
/// client's own if the server is told to echo it, else the server's.
pub proof fn status_is_told(
    s: session::SessionView,
    p: codec::PacketView,
    settings: Settings,
    online: i32,
)
    requires
        s.phase == Phase::Status,
    ensures
        ({
            let told = status::status_text(
                settings.status.version_string@,
                if settings.status.echo_version {
                    s.protocol as int
                } else {
                    settings.status.protocol_version as int
                },
                settings.max_players as int,
                online as int,
                settings.status.motd@,
            );
            let (after, step) = session::advanced(
                s,
                session::EventView::Packet(p),
                settings,
                online,
            );
            &&& same_client(after, s)
            &&& if utf8::encode_utf8(told).len() <= i32::MAX {
                &&& after.phase == Phase::Ping
                &&& step.next == Next::Read
                &&& step.send.len() == 1
                &&& step.send[0] matches session::MessageView::Packet { id, data }
                &&& id == 0
                &&& text::first_text(data) == Some(told)
            } else {
                &&& after.phase == Phase::Closed
                &&& step.next == Next::Fail
                &&& step.send.len() == 0
            }
        }),
{
    let told = session::status_for(s, settings, online);
    if utf8::encode_utf8(told).len() <= i32::MAX {
        text::reading_inverts_writing(told, Seq::empty());
        assert(serialize::text(told) + Seq::empty() =~= serialize::text(told));
    }
}

/// A ping is sent back as it came, whatever it holds, and all is done.
pub proof fn pings_come_back(
    s: session::SessionView,
    p: codec::PacketView,
    settings: Settings,
    online: i32,
)
    requires
        s.phase == Phase::Ping,
    ensures
        ({
            let (after, step) = session::advanced(
                s,
                session::EventView::Packet(p),
                settings,
                online,
            );
            &&& after.phase == Phase::Closed
            &&& same_client(after, s)
            &&& step.next == Next::Done
            &&& step.send.len() == 1
            &&& step.send[0] == (session::MessageView::Packet { id: 0x01, data: p.data })
        }),
{
}

/// A player that logs in is remembered and told their own number and name, with no properties.
pub proof fn players_are_told_their_names(
    s: session::SessionView,
    name: Seq<char>,
    uuid: u128,
    rest: Seq<u8>,
    length: i32,
    id: i32,
    settings: Settings,
    online: i32,
)
    requires
        s.phase == Phase::LoginStart,
        serialize::text(name).len() <= i32::MAX,
        serialize::text(name).len() + 16 + rest.len() <= usize::MAX,
    ensures
        ({
            let data = serialize::text(name) + num::be_bytes(uuid as nat, 16) + rest;
            let p = session::EventView::Packet(codec::PacketView { length, id, data });
            let (after, step) = session::advanced(s, p, settings, online);
            &&& after.phase == Phase::LoginAck
            &&& after.name == name
            &&& after.uuid == uuid
            &&& after.protocol == s.protocol
            &&& after.address == s.address
            &&& after.port == s.port
            &&& step.next == Next::Read
            &&& step.send.len() == 1
            &&& step.send[0] == (session::MessageView::Packet {
                id: 0x02,
                data: num::be_bytes(uuid as nat, 16) + serialize::text(name) + seq![0u8],
            })
        }),
{
    login::login_round_trip(name, uuid, rest);
    reveal_with_fuel(varint::wire, 2);
    assert(varint::wire_i32(0) =~= seq![0u8]);
}

/// A handshake or a login request that cannot be read ends the connection without a word.
pub proof fn broken_requests_fail(
    s: session::SessionView,
    p: codec::PacketView,
    settings: Settings,
    online: i32,
)
    requires
        ({
            ||| s.phase == Phase::Handshake && login::handshake(p.data) is None
            ||| s.phase == Phase::LoginStart && login::login_request(p.data) is None
        }),
    ensures
        ({
            let (after, step) = session::advanced(
                s,
                session::EventView::Packet(p),
                settings,
                online,
            );
            &&& after.phase == Phase::Closed
            &&& same_client(after, s)
            &&& step.next == Next::Fail
            &&& step.send.len() == 0
        }),
{
}

/// Whatever packet acknowledges the login, the client is told the one pack that the server knows.
pub proof fn servers_pack_is_told(
    s: session::SessionView,
    p: codec::PacketView,
    settings: Settings,
    online: i32,
)
    requires
        s.phase == Phase::LoginAck,
    ensures
        ({
            let (after, step) = session::advanced(
                s,
                session::EventView::Packet(p),
                settings,
                online,
            );
            &&& after.phase == Phase::Configuration
            &&& same_client(after, s)
            &&& step.next == Next::Read
            &&& step.send.len() == 1
            &&& step.send[0] == (session::MessageView::Packet {
                id: 0x0E,
                data: seq![1u8] + serialize::text("minecraft"@) + serialize::text("core"@)
                    + serialize::text("1.21.11"@),
            })
        }),
{
    let pack = packs::PackView { namespace: "minecraft"@, id: "core"@, version: "1.21.11"@ };
    reveal_with_fuel(packs::each_pack, 2);
    reveal_with_fuel(varint::wire, 2);
    assert(seq![pack].drop_last() =~= Seq::empty());
    assert(packs::each_pack(seq![pack]) =~= packs::pack_wire(pack));
    assert(serialize::count(1) =~= seq![1u8]);
    assert(packs::packs_wire(seq![pack]) =~= seq![1u8] + serialize::text("minecraft"@)
        + serialize::text("core"@) + serialize::text("1.21.11"@));
}

/// Once the client acknowledges the end of its configuration it enters the game, whatever the
/// packet. Whatever comes then, the chunks follow.
pub proof fn finished_clients_enter_the_game(
    s: session::SessionView,
    event: session::EventView,
    settings: Settings,
    online: i32,
)
    ensures
        ({
            let (after, step) = session::advanced(s, event, settings, online);
            &&& s.phase == Phase::FinishAck ==> {
                &&& same_client(after, s)
                &&& step.send.len() == 0
                &&& if event is Packet {
                    after.phase == Phase::Joining && step.next == Next::Join
                } else {
                    after.phase == Phase::Closed && step.next == Next::Abort
                }
            }
            &&& s.phase == Phase::Joining ==> {
                &&& same_client(after, s)
                &&& after.phase == Phase::Playing
                &&& step.next == Next::Play
                &&& step.send.len() == 0
            }
            &&& s.phase == Phase::Playing ==> {
                &&& same_client(after, s)
                &&& step.send.len() == 0
                &&& match event {
                    session::EventView::Packet(p) => after.phase == Phase::Playing && step.next
                        == Next::Read,
                    session::EventView::End => after.phase == Phase::Closed && step.next
                        == Next::Done,
                    session::EventView::Invalid => after.phase == Phase::Closed && step.next
                        == Next::Fail,
                }
            }
        }),
{
}

/// Before the configuration, a stream that ends or brings no packet ends the connection without a
/// word; so does a stream that ends while the client is configured, and anything that comes while a
/// player waits to be counted or after the end.
pub proof fn early_ends_fail(
    s: session::SessionView,
    event: session::EventView,
    settings: Settings,
    online: i32,
)
    requires
        match s.phase {
            Phase::Handshake | Phase::Status | Phase::Ping | Phase::LoginStart | Phase::LoginAck => {
                event is Invalid || event is End
            },
            Phase::Configuration => event is End,
            Phase::Admission | Phase::Closed => true,
            _ => false,
        },
    ensures
        ({
            let (after, step) = session::advanced(s, event, settings, online);
            &&& after.phase == Phase::Closed
            &&& same_client(after, s)
            &&& step.next == Next::Fail
            &&& step.send.len() == 0
        }),
{
}

/// Whether a text holds another one somewhere.
pub open spec fn holds_text(s: Seq<char>, part: Seq<char>) -> bool {
    exists|i: int|
        0 <= i && i + part.len() <= s.len() && #[trigger] s.subrange(i, i + part.len()) == part
}

proof fn lemma_holds(before: Seq<char>, part: Seq<char>, after: Seq<char>)
    ensures
        holds_text(before + part + after, part),
{
    let i = before.len() as int;
    assert((before + part + after).subrange(i, i + part.len()) =~= part);
}

/// What the server says of itself gives each value under its own name.
#[verifier::spinoff_prover]
#[verifier::rlimit(50)]
pub proof fn status_names_each_value(
    version: Seq<char>,
    protocol: int,
    max_players: int,
    online: int,
    motd: Seq<char>,
)
    ensures
        ({
            let told = status::status_text(version, protocol, max_players, online, motd);
            &&& holds_text(told, "{\n    \"version\": {\n        \"name\": \""@ + version)
            &&& holds_text(told, "\",\n        \"protocol\": "@ + status::decimal(protocol))
            &&& holds_text(
                told,
                "\n    },\n    \"players\": {\n        \"max\": "@ + status::decimal(max_players),
            )
            &&& holds_text(told, ",\n        \"online\": "@ + status::decimal(online))
            &&& holds_text(
                told,
                ",\n        \"sample\": []\n    },\n    \"description\": {\n        \"text\" : \""@
                    + motd,
            )
        }),
{
    let (a, b, c, d, e, f) = (
        "{\n    \"version\": {\n        \"name\": \""@,
        "\",\n        \"protocol\": "@,
        "\n    },\n    \"players\": {\n        \"max\": "@,
        ",\n        \"online\": "@,
        ",\n        \"sample\": []\n    },\n    \"description\": {\n        \"text\" : \""@,
        "\"\n    }\n}\n"@,
    );
    let told = status::status_text(version, protocol, max_players, online, motd);
    lemma_told(
        a,
        version,
        b,
        status::decimal(protocol),
        c,
        status::decimal(max_players),
        d,
        status::decimal(online),
        e,
        motd,
        f,
    );
}

#[verifier::spinoff_prover]
#[verifier::rlimit(50)]
proof fn lemma_told(
    a: Seq<char>,
    v: Seq<char>,
    b: Seq<char>,
    p: Seq<char>,
    c: Seq<char>,
    m: Seq<char>,
    d: Seq<char>,
    o: Seq<char>,
    e: Seq<char>,
    t: Seq<char>,
    f: Seq<char>,
)
    ensures
        ({
            let told = a + v + b + p + c + m + d + o + e + t + f;
            &&& holds_text(told, a + v)
            &&& holds_text(told, b + p)
            &&& holds_text(told, c + m)
            &&& holds_text(told, d + o)
            &&& holds_text(told, e + t)
        }),
{
    let told = a + v + b + p + c + m + d + o + e + t + f;
    let none = Seq::<char>::empty();
    let (q, r, s) = (a + v, b + p, c + m);
    let (x, y) = (d + o, e + t);
    let all = q + r + s + x + y + f;
    assert(told =~= all);
    assert(all =~= none + q + (r + s + x + y + f));
    lemma_holds(none, q, r + s + x + y + f);
    assert(all =~= q + r + (s + x + y + f));
    lemma_holds(q, r, s + x + y + f);
    assert(all =~= (q + r) + s + (x + y + f));
    lemma_holds(q + r, s, x + y + f);
    assert(all =~= (q + r + s) + x + (y + f));
    lemma_holds(q + r + s, x, y + f);
    lemma_holds(q + r + s + x, y, f);
}

/// The number that a text of decimal digits spells.
pub open spec fn spelled(s: Seq<char>) -> int
    decreases s.len(),
{
    if s.len() == 0 {
        0
    } else {
        10 * spelled(s.drop_last()) + (s.last() as int - 48)
    }
}

/// Whether a text has only digits, at least one, of which the first is no zero unless it is alone.
pub open spec fn plainly_written(s: Seq<char>) -> bool {
    &&& s.len() > 0
    &&& forall|i: int| 0 <= i < s.len() ==> 48 <= #[trigger] s[i] as int <= 57
    &&& s[0] == '0' ==> s.len() == 1
}

/// A number in decimal has only digits, after a minus if it is negative, and the digits spell the
/// number.
pub proof fn decimals_spell_their_number(n: int)
    ensures
        n >= 0 ==> plainly_written(status::decimal(n)) && spelled(status::decimal(n)) == n,
        n < 0 ==> {
            let shown = status::decimal(n);
            &&& shown.len() > 0
            &&& shown[0] == '-'
            &&& plainly_written(shown.skip(1))
            &&& spelled(shown.skip(1)) == -n
        },
{
    if n < 0 {
        assert(status::decimal(n).skip(1) =~= status::digits((-n) as nat));
        lemma_digits((-n) as nat);
    } else {
        lemma_digits(n as nat);
    }
}

proof fn lemma_digits(n: nat)
    ensures
        plainly_written(status::digits(n)),
        spelled(status::digits(n)) == n,
        status::digits(n)[0] == '0' ==> n == 0,
    decreases n,
{
    reveal_with_fuel(spelled, 2);
    if n >= 10 {
        lemma_digits(n / 10);
        assert(status::digits(n).drop_last() =~= status::digits(n / 10));
    } else {
        assert(status::digits(n).drop_last() =~= Seq::empty());
    }
}

/// Whether two texts are the same but for the case of the letters from a to z.
pub open spec fn same_but_for_case(a: Seq<char>, b: Seq<char>) -> bool {
    &&& a.len() == b.len()
    &&& forall|i: int|
        0 <= i < a.len() ==> {
            ||| #[trigger] a[i] == b[i]
            ||| 97 <= a[i] as int <= 122 && b[i] as int == a[i] as int - 32
            ||| 97 <= b[i] as int <= 122 && a[i] as int == b[i] as int - 32
        }
}

/// A level goes by its name in upper or lower case or any mixture, and by no other name.
pub proof fn levels_are_named_in_any_case(name: Seq<char>)
    ensures
        status::level_named(name) == Some(status::LogLevel::Trace) <==> same_but_for_case(
            name,
            "TRACE"@,
        ),
        status::level_named(name) == Some(status::LogLevel::Debug) <==> same_but_for_case(
            name,
            "DEBUG"@,
        ),
        status::level_named(name) == Some(status::LogLevel::Info) <==> same_but_for_case(
            name,
            "INFO"@,
        ),
        status::level_named(name) == Some(status::LogLevel::Warn) <==> same_but_for_case(
            name,
            "WARN"@,
        ),
        status::level_named(name) == Some(status::LogLevel::Error) <==> same_but_for_case(
            name,
            "ERROR"@,
        ),
{
    reveal_strlit("TRACE");
    reveal_strlit("DEBUG");
    reveal_strlit("INFO");
    reveal_strlit("WARN");
    reveal_strlit("ERROR");
    lemma_same_name(name, "TRACE"@);
    lemma_same_name(name, "DEBUG"@);
    lemma_same_name(name, "INFO"@);
    lemma_same_name(name, "WARN"@);
    lemma_same_name(name, "ERROR"@);
    assert("TRACE"@[0] != "DEBUG"@[0] && "TRACE"@[0] != "ERROR"@[0] && "DEBUG"@[0] != "ERROR"@[0]);
    assert("INFO"@[0] != "WARN"@[0]);
}

proof fn lemma_same_name(name: Seq<char>, word: Seq<char>)
    requires
        forall|i: int| 0 <= i < word.len() ==> 65 <= #[trigger] word[i] as int <= 90,
    ensures
        status::upper(name) == word <==> same_but_for_case(name, word),
{
    if status::upper(name) == word {
        assert forall|i: int| 0 <= i < name.len() implies {
            ||| #[trigger] name[i] == word[i]
            ||| 97 <= name[i] as int <= 122 && word[i] as int == name[i] as int - 32
        } by {
            assert(status::upper(name)[i] == status::upper_char(name[i]));
        }
    }
    if same_but_for_case(name, word) {
        assert forall|i: int| 0 <= i < name.len() implies status::upper(name)[i] == word[i] by {
            assert(name[i] == word[i] || name[i] != word[i]);
        }
        assert(status::upper(name) =~= word);
    }
}

} // verus!
