//! The course of a connection, from the handshake to the game: what is sent in answer to what
//! comes in.
use vstd::prelude::*;
use vstd::utf8;

use crate::codec;
use crate::codec::RawPacket;
use crate::config::Settings;
use crate::login;
use crate::packs;
use crate::packs::KnownPack;
use crate::serialize;
use crate::serialize::Serialize;
use crate::status;
use crate::varint;

verus! {

/// What a connection waits for.
#[derive(Debug, Clone, Copy, PartialEq, Eq, Structural)]
pub enum Phase {
    /// The first packet.
    Handshake,
    /// The number of players before this one.
    Admission,
    /// A request for the server's status.
    Status,
    /// A ping.
    Ping,
    /// A request to log in.
    LoginStart,
    /// The acknowledgement of the login.
    LoginAck,
    /// The packs that the client knows.
    Configuration,
    /// The acknowledgement that the configuration is finished.
    FinishAck,
    /// The confirmation of the position.
    Joining,
    /// The packets of the game.
    Playing,
    /// Nothing.
    Closed,
}

/// What comes in.
pub enum Event {
    Packet(RawPacket),
    /// Bytes that are no packet.
    Invalid,
    /// The end of the stream.
    End,
}

/// What comes in.
#[verifier::ext_equal]
pub enum EventView {
    Packet(codec::PacketView),
    Invalid,
    End,
}

impl View for Event {
    type V = EventView;

    open spec fn view(&self) -> EventView {
        match self {
            Event::Packet(p) => EventView::Packet(p@),
            Event::Invalid => EventView::Invalid,
            Event::End => EventView::End,
        }
    }
}

/// What goes out.
#[derive(Debug)]
pub enum Message {
    /// A packet.
    Packet { id: i32, data: Vec<u8> },
    /// Bytes as they are.
    Raw(Vec<u8>),
    /// The packets of the registries.
    RegistryData,
    /// The packet of the tags.
    UpdateTags,
}

/// What goes out.
#[verifier::ext_equal]
pub enum MessageView {
    Packet { id: i32, data: Seq<u8> },
    Raw(Seq<u8>),
    RegistryData,
    UpdateTags,
}

impl View for Message {
    type V = MessageView;

    open spec fn view(&self) -> MessageView {
        match self {
            Message::Packet { id, data } => MessageView::Packet { id: *id, data: data@ },
            Message::Raw(bytes) => MessageView::Raw(bytes@),
            Message::RegistryData => MessageView::RegistryData,
            Message::UpdateTags => MessageView::UpdateTags,
        }
    }
}

/// What is to be done after the messages were sent.
#[derive(Debug, Clone, Copy, PartialEq, Eq, Structural)]
pub enum Next {
    /// Read the next packet.
    Read,
    /// Count the player in, and tell how many there were before.
    Count,
    /// Send what a player is sent when they enter the game, then read the next packet.
    Join,
    /// Send the chunks, then play.
    Play,
    /// Close the connection: all is done.
    Done,
    /// Close the connection: it failed.
    Fail,
    /// Give up: the client broke the rules in a way that is not provided for.
    Abort,
}

/// The messages to send, and what is to be done then.
#[derive(Debug)]
pub struct Step {
    pub send: Vec<Message>,
    pub next: Next,
}

/// The messages to send, and what is to be done then.
#[verifier::ext_equal]
pub struct StepView {
    pub send: Seq<MessageView>,
    pub next: Next,
}

impl View for Step {
    type V = StepView;

    open spec fn view(&self) -> StepView {
        StepView { send: self.send@.map_values(|m: Message| m@), next: self.next }
    }
}

/// A connection: what it waits for, and what is known of the client.
pub struct Session {
    pub phase: Phase,
    pub protocol: i32,
    pub address: String,
    pub port: u16,
    pub name: String,
    pub uuid: u128,
}

/// A connection: what it waits for, and what is known of the client.
#[verifier::ext_equal]
pub struct SessionView {
    pub phase: Phase,
    pub protocol: i32,
    pub address: Seq<char>,
    pub port: u16,
    pub name: Seq<char>,
    pub uuid: nat,
}

impl View for Session {
    type V = SessionView;

    open spec fn view(&self) -> SessionView {
        SessionView {
            phase: self.phase,
            protocol: self.protocol,
            address: self.address@,
            port: self.port,
            name: self.name@,
            uuid: self.uuid as nat,
        }
    }
}

/// The number of a player that is not known yet.
pub const UNKNOWN_PLAYER: u128 = 0xDEADBEEF_DEADBEEF_DEADBEEF_DEADBEEF;

/// What a client asks for that wants to play.
pub const NEXT_LOGIN: i32 = 2;

/// The numbers of the packets before the game.
pub const STATUS_RESPONSE: i32 = 0x00;

pub const PING_RESPONSE: i32 = 0x01;

pub const LOGIN_SUCCESS: i32 = 0x02;

pub const KNOWN_PACKS: i32 = 0x0E;

pub const FINISH_CONFIGURATION: i32 = 0x03;

pub const SELECT_KNOWN_PACKS: i32 = 0x07;

/// A packet to send.
pub open spec fn packet(id: i32, data: Seq<u8>) -> MessageView {
    MessageView::Packet { id, data }
}

/// The state in the given phase.
pub open spec fn in_phase(s: SessionView, phase: Phase) -> SessionView {
    SessionView { phase, ..s }
}

/// The connection is closed because it failed.
pub open spec fn failed(s: SessionView) -> (SessionView, StepView) {
    (in_phase(s, Phase::Closed), StepView { send: Seq::empty(), next: Next::Fail })
}

/// The connection is given up.
pub open spec fn aborted(s: SessionView) -> (SessionView, StepView) {
    (in_phase(s, Phase::Closed), StepView { send: Seq::empty(), next: Next::Abort })
}

/// The packet that a client is sent when the server is full.
pub open spec fn disconnect() -> Seq<u8> {
    codec::frame(0, serialize::text("{\"text\": \"The server is full!\"}"@))
}

/// The packs that the server knows.
pub open spec fn server_packs() -> Seq<packs::PackView> {
    seq![packs::PackView { namespace: "minecraft"@, id: "core"@, version: "1.21.11"@ }]
}

/// A client says what it wants: to play, or to know the server's status.
pub open spec fn on_handshake(s: SessionView, p: codec::PacketView) -> (SessionView, StepView) {
    match login::handshake(p.data) {
        None => failed(s),
        Some(h) => {
            let known = SessionView {
                protocol: h.protocol,
                address: h.address,
                port: h.port,
                ..s
            };
            if h.next == NEXT_LOGIN {
                (
                    in_phase(known, Phase::Admission),
                    StepView { send: Seq::empty(), next: Next::Count },
                )
            } else {
                (in_phase(known, Phase::Status), StepView { send: Seq::empty(), next: Next::Read })
            }
        },
    }
}

/// What the server says of itself to this client.
pub open spec fn status_for(s: SessionView, settings: Settings, online: i32) -> Seq<char> {
    status::status_text(
        settings.status.version_string@,
        if settings.status.echo_version {
            s.protocol as int
        } else {
            settings.status.protocol_version as int
        },
        settings.max_players as int,
        online as int,
        settings.status.motd@,
    )
}

/// A client asks for the server's status.
pub open spec fn on_status(s: SessionView, settings: Settings, online: i32) -> (
    SessionView,
    StepView,
) {
    let text = status_for(s, settings, online);
    if utf8::encode_utf8(text).len() > i32::MAX {
        failed(s)
    } else {
        (
            in_phase(s, Phase::Ping),
            StepView {
                send: seq![packet(STATUS_RESPONSE, serialize::text(text))],
                next: Next::Read,
            },
        )
    }
}

/// A client wants its ping back.
pub open spec fn on_ping(s: SessionView, p: codec::PacketView) -> (SessionView, StepView) {
    (
        in_phase(s, Phase::Closed),
        StepView { send: seq![packet(PING_RESPONSE, p.data)], next: Next::Done },
    )
}

/// A player wants to log in.
pub open spec fn on_login_start(s: SessionView, p: codec::PacketView) -> (SessionView, StepView) {
    match login::login_request(p.data) {
        None => failed(s),
        Some((name, uuid)) => if utf8::encode_utf8(name).len() > i32::MAX {
            failed(s)
        } else {
            (
                SessionView { phase: Phase::LoginAck, name, uuid, ..s },
                StepView {
                    send: seq![packet(LOGIN_SUCCESS, login::login_success_wire(name, uuid, 0))],
                    next: Next::Read,
                },
            )
        },
    }
}

/// A client acknowledges the login: it is told which packs the server knows.
pub open spec fn on_login_ack(s: SessionView) -> (SessionView, StepView) {
    (
        in_phase(s, Phase::Configuration),
        StepView {
            send: seq![packet(KNOWN_PACKS, packs::packs_wire(server_packs()))],
            next: Next::Read,
        },
    )
}

/// A client tells which packs it knows: whichever they are, it is sent registries and tags, and
/// the configuration ends. Anything else it tells has no effect.
pub open spec fn on_configuration(s: SessionView, p: codec::PacketView) -> (SessionView, StepView) {
    if p.id != SELECT_KNOWN_PACKS {
        (s, StepView { send: Seq::empty(), next: Next::Read })
    } else if varint::low_bits(p.data) < 0 || packs::listed_packs(p.data) is None {
        aborted(s)
    } else {
        (
            in_phase(s, Phase::FinishAck),
            StepView {
                send: seq![
                    MessageView::RegistryData,
                    MessageView::UpdateTags,
                    packet(FINISH_CONFIGURATION, Seq::empty()),
                ],
                next: Next::Read,
            },
        )
    }
}

/// What an event leads to. `online` is the number of players in the game.
pub open spec fn advanced(s: SessionView, event: EventView, settings: Settings, online: i32) -> (
    SessionView,
    StepView,
) {
    match (s.phase, event) {
        (Phase::Handshake, EventView::Packet(p)) => on_handshake(s, p),
        (Phase::Status, EventView::Packet(p)) => on_status(s, settings, online),
        (Phase::Ping, EventView::Packet(p)) => on_ping(s, p),
        (Phase::LoginStart, EventView::Packet(p)) => on_login_start(s, p),
        (Phase::LoginAck, EventView::Packet(p)) => on_login_ack(s),
        (Phase::Configuration, EventView::Packet(p)) => on_configuration(s, p),
        (Phase::Configuration, EventView::Invalid) => (
            s,
            StepView { send: Seq::empty(), next: Next::Read },
        ),
        (Phase::FinishAck, EventView::Packet(p)) => (
            in_phase(s, Phase::Joining),
            StepView { send: Seq::empty(), next: Next::Join },
        ),
        (Phase::FinishAck, _) => aborted(s),
        (Phase::Joining, _) => (
            in_phase(s, Phase::Playing),
            StepView { send: Seq::empty(), next: Next::Play },
        ),
        (Phase::Playing, EventView::Packet(p)) => (
            s,
            StepView { send: Seq::empty(), next: Next::Read },
        ),
        (Phase::Playing, EventView::End) => (
            in_phase(s, Phase::Closed),
            StepView { send: Seq::empty(), next: Next::Done },
        ),
        _ => failed(s),
    }
}

/// Whether a player is let in, of whom there were `before` already. If not, they are told that
/// the server is full.
pub open spec fn counted_in(s: SessionView, before: i32, max_players: i32) -> (SessionView, StepView) {
    if s.phase != Phase::Admission {
        failed(s)
    } else if before >= max_players {
        (
            in_phase(s, Phase::Closed),
            StepView { send: seq![MessageView::Raw(disconnect())], next: Next::Done },
        )
    } else {
        (in_phase(s, Phase::LoginStart), StepView { send: Seq::empty(), next: Next::Read })
    }
}

/// How far a connection has come.
pub open spec fn rank(phase: Phase) -> int {
    match phase {
        Phase::Handshake => 0,
        Phase::Admission => 1,
        Phase::Status => 1,
        Phase::Ping => 2,
        Phase::LoginStart => 2,
        Phase::LoginAck => 3,
        Phase::Configuration => 4,
        Phase::FinishAck => 5,
        Phase::Joining => 6,
        Phase::Playing => 7,
        Phase::Closed => 8,
    }
}

/// A connection never goes back: it stays where it is only while the client is configured or in
/// the game, and a closed one stays closed.
pub proof fn phases_only_advance(
    s: SessionView,
    event: EventView,
    settings: Settings,
    online: i32,
    before: i32,
    max_players: i32,
)
    ensures
        ({
            let (after, step) = advanced(s, event, settings, online);
            &&& rank(after.phase) > rank(s.phase) || after.phase == s.phase
            &&& after.phase == s.phase ==> s.phase == Phase::Configuration || s.phase
                == Phase::Playing || s.phase == Phase::Closed
            &&& s.phase == Phase::Closed ==> step.send.len() == 0
        }),
        ({
            let (after, step) = counted_in(s, before, max_players);
            rank(after.phase) > rank(s.phase) || (s.phase == Phase::Closed && after.phase
                == Phase::Closed)
        }),
{
}

/// A connection is closed exactly when nothing more is to be done.
pub proof fn closed_when_done(s: SessionView, event: EventView, settings: Settings, online: i32)
    ensures
        ({
            let (after, step) = advanced(s, event, settings, online);
            after.phase == Phase::Closed <==> (step.next == Next::Done || step.next == Next::Fail
                || step.next == Next::Abort)
        }),
{
}

/// The game is entered only after the configuration was finished, and that only after the client
/// told which packs it knows.
pub proof fn game_needs_configuration(
    s: SessionView,
    event: EventView,
    settings: Settings,
    online: i32,
)
    ensures
        ({
            let (after, step) = advanced(s, event, settings, online);
            &&& step.next == Next::Join <==> s.phase == Phase::FinishAck && event is Packet
            &&& step.next == Next::Play <==> s.phase == Phase::Joining
            &&& after.phase == Phase::FinishAck ==> {
                &&& s.phase == Phase::Configuration
                &&& event matches EventView::Packet(p)
                &&& p.id == SELECT_KNOWN_PACKS
                &&& packs::listed_packs(p.data) is Some
            }
        }),
{
}

/// The game goes on with every packet, and ends well exactly when the player leaves.
pub proof fn game_lasts_until_the_end(
    s: SessionView,
    event: EventView,
    settings: Settings,
    online: i32,
)
    requires
        s.phase == Phase::Playing,
    ensures
        ({
            let (after, step) = advanced(s, event, settings, online);
            &&& step.send.len() == 0
            &&& step.next == Next::Read <==> event is Packet
            &&& step.next == Next::Done <==> event is End
            &&& step.next == Next::Fail <==> event is Invalid
            &&& event is Packet ==> after == s
        }),
{
}

/// A full server turns away exactly those that come when it is full, and tells them so.
pub proof fn full_server_says_so(s: SessionView, before: i32, max_players: i32)
    requires
        s.phase == Phase::Admission,
    ensures
        ({
            let (after, step) = counted_in(s, before, max_players);
            if before >= max_players {
                &&& step.next == Next::Done
                &&& step.send == seq![MessageView::Raw(disconnect())]
                &&& codec::head(disconnect()) == (codec::Frame::Whole {
                    packet: codec::PacketView {
                        length: 33,
                        id: 0,
                        data: serialize::text("{\"text\": \"The server is full!\"}"@),
                    },
                    rest: Seq::empty(),
                })
            } else {
                after.phase == Phase::LoginStart && step.next == Next::Read
            }
        }),
{
    let data = serialize::text("{\"text\": \"The server is full!\"}"@);
    lemma_disconnect_len();
    codec::decode_inverts_encode(0, data, Seq::empty());
    assert(disconnect() + Seq::<u8>::empty() =~= disconnect());
}

proof fn lemma_disconnect_len()
    ensures
        serialize::text("{\"text\": \"The server is full!\"}"@).len() == 32,
        varint::wire_i32(0).len() == 1,
        disconnect().len() == 34,
{
    reveal_strlit("{\"text\": \"The server is full!\"}");
    let s = "{\"text\": \"The server is full!\"}"@;
    utf8::is_ascii_chars_encode_utf8(s);
    assert(utf8::encode_utf8(s).len() == 31);
    reveal_with_fuel(varint::wire, 2);
    assert(serialize::count(31) =~= seq![31u8]);
    assert(varint::wire_i32(0) =~= seq![0u8]);
    assert(serialize::count(33) =~= seq![33u8]);
}

impl Step {
    /// No message.
    fn quiet(next: Next) -> (r: Self)
        ensures
            r@ == (StepView { send: Seq::empty(), next }),
    {
        let r = Step { send: Vec::new(), next };
        assert(r@.send =~= Seq::empty());
        r
    }

    /// One message.
    fn saying(message: Message, next: Next) -> (r: Self)
        ensures
            r@ == (StepView { send: seq![message@], next }),
    {
        let ghost view = message@;
        let mut send: Vec<Message> = Vec::new();
        send.push(message);
        let r = Step { send, next };
        assert(r@.send =~= seq![view]);
        r
    }
}

impl Session {
    /// A connection that was just made.
    pub fn new() -> (r: Self)
        ensures
            r@ == (SessionView {
                phase: Phase::Handshake,
                protocol: 0,
                address: Seq::empty(),
                port: 0,
                name: Seq::empty(),
                uuid: UNKNOWN_PLAYER as nat,
            }),
    {
        let r = Session {
            phase: Phase::Handshake,
            protocol: 0,
            address: String::new(),
            port: 0,
            name: String::new(),
            uuid: UNKNOWN_PLAYER,
        };
        assert(r@.address =~= Seq::empty());
        assert(r@.name =~= Seq::empty());
        r
    }

    /// Closes the connection because it failed.
    fn fail(&mut self) -> (r: Step)
        ensures
            failed(old(self)@) == (final(self)@, r@),
    {
        self.phase = Phase::Closed;
        Step::quiet(Next::Fail)
    }

    /// Gives the connection up.
    fn abort(&mut self) -> (r: Step)
        ensures
            aborted(old(self)@) == (final(self)@, r@),
    {
        self.phase = Phase::Closed;
        Step::quiet(Next::Abort)
    }

    fn on_handshake(&mut self, packet: RawPacket) -> (r: Step)
        ensures
            on_handshake(old(self)@, packet@) == (final(self)@, r@),
    {
        let (protocol, address, port, next) = match login::stage_0(packet.data.as_slice()) {
            Some(handshake) => handshake,
            None => return self.fail(),
        };
        self.protocol = protocol.value();
        self.address = address;
        self.port = port;
        if next.value() == NEXT_LOGIN {
            self.phase = Phase::Admission;
            Step::quiet(Next::Count)
        } else {
            self.phase = Phase::Status;
            Step::quiet(Next::Read)
        }
    }

    fn on_status(&mut self, settings: &Settings, online: i32) -> (r: Step)
        ensures
            on_status(old(self)@, *settings, online) == (final(self)@, r@),
    {
        let protocol: i32 = if settings.status.echo_version {
            self.protocol
        } else {
            settings.status.protocol_version
        };
        let response = status::status_response(
            settings.status.version_string.as_str(),
            protocol,
            settings.max_players,
            online,
            settings.status.motd.as_str(),
        );
        match response {
            Some(data) => {
                self.phase = Phase::Ping;
                Step::saying(Message::Packet { id: STATUS_RESPONSE, data }, Next::Read)
            },
            None => self.fail(),
        }
    }

    fn on_login_start(&mut self, packet: RawPacket) -> (r: Step)
        ensures
            on_login_start(old(self)@, packet@) == (final(self)@, r@),
    {
        let (name, uuid): (String, u128) = match login::login_start(packet.data.as_slice()) {
            Some(request) => request,
            None => return self.fail(),
        };
        match login::login_success(name.as_str(), uuid, 0) {
            Some(data) => {
                self.name = name;
                self.uuid = uuid;
                self.phase = Phase::LoginAck;
                Step::saying(Message::Packet { id: LOGIN_SUCCESS, data }, Next::Read)
            },
            None => self.fail(),
        }
    }

    fn on_login_ack(&mut self) -> (r: Step)
        ensures
            on_login_ack(old(self)@) == (final(self)@, r@),
    {
        let mut known: Vec<KnownPack> = Vec::new();
        known.push(
            KnownPack {
                namespace: "minecraft".to_owned(),
                id: "core".to_owned(),
                version: "1.21.11".to_owned(),
            },
        );
        assert(known@.map_values(|p: KnownPack| p@) =~= server_packs());
        let mut data: Vec<u8> = Vec::new();
        packs::create_known_packs(known, &mut data);
        assert(data@ =~= packs::packs_wire(server_packs()));
        self.phase = Phase::Configuration;
        Step::saying(Message::Packet { id: KNOWN_PACKS, data }, Next::Read)
    }

    fn on_configuration(&mut self, packet: RawPacket) -> (r: Step)
        ensures
            on_configuration(old(self)@, packet@) == (final(self)@, r@),
    {
        if packet.id.value() != SELECT_KNOWN_PACKS {
            return Step::quiet(Next::Read);
        }
        if !packs::known_packs_count_is_valid(packet.data.as_slice()) {
            return self.abort();
        }
        match packs::parse_known_packs(packet.data.as_slice()) {
            Some(_) => {
                self.phase = Phase::FinishAck;
                let mut send: Vec<Message> = Vec::new();
                send.push(Message::RegistryData);
                send.push(Message::UpdateTags);
                send.push(Message::Packet { id: FINISH_CONFIGURATION, data: Vec::new() });
                let r = Step { send, next: Next::Read };
                assert(r@ =~= on_configuration(old(self)@, packet@).1);
                r
            },
            None => self.abort(),
        }
    }

    /// Goes on with what came in. `online` is the number of players in the game.
    pub fn advance(&mut self, event: Event, settings: &Settings, online: i32) -> (r: Step)
        ensures
            advanced(old(self)@, event@, *settings, online) == (final(self)@, r@),
    {
        match (self.phase, event) {
            (Phase::Handshake, Event::Packet(packet)) => self.on_handshake(packet),
            (Phase::Status, Event::Packet(_)) => self.on_status(settings, online),
            (Phase::Ping, Event::Packet(packet)) => {
                self.phase = Phase::Closed;
                Step::saying(
                    Message::Packet { id: PING_RESPONSE, data: packet.data },
                    Next::Done,
                )
            },
            (Phase::LoginStart, Event::Packet(packet)) => self.on_login_start(packet),
            (Phase::LoginAck, Event::Packet(_)) => self.on_login_ack(),
            (Phase::Configuration, Event::Packet(packet)) => self.on_configuration(packet),
            (Phase::Configuration, Event::Invalid) => Step::quiet(Next::Read),
            (Phase::FinishAck, Event::Packet(_)) => {
                self.phase = Phase::Joining;
                Step::quiet(Next::Join)
            },
            (Phase::FinishAck, _) => self.abort(),
            (Phase::Joining, _) => {
                self.phase = Phase::Playing;
                Step::quiet(Next::Play)
            },
            (Phase::Playing, Event::Packet(_)) => Step::quiet(Next::Read),
            (Phase::Playing, Event::End) => {
                self.phase = Phase::Closed;
                Step::quiet(Next::Done)
            },
            _ => self.fail(),
        }
    }

    /// Lets a player in, of whom there were `before` already, or tells them that the server is
    /// full.
    pub fn count_in(&mut self, before: i32, settings: &Settings) -> (r: Step)
        ensures
            counted_in(old(self)@, before, settings.max_players) == (final(self)@, r@),
    {
        if self.phase != Phase::Admission {
            return self.fail();
        }
        if before >= settings.max_players {
            self.phase = Phase::Closed;
            Step::saying(Message::Raw(disconnect_packet()), Next::Done)
        } else {
            self.phase = Phase::LoginStart;
            Step::quiet(Next::Read)
        }
    }
}

/// The packet that a client is sent when the server is full.
pub fn disconnect_packet() -> (out: Vec<u8>)
    ensures
        out@ == disconnect(),
{
    let text: &str = "{\"text\": \"The server is full!\"}";
    proof {
        lemma_disconnect_len();
    }
    codec::assemble(0, text.serialize().as_slice())
}

} // verus!
