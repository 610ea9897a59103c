use server::config::{Settings, StatusConfig, WorldConfig};
use server::join::{
    chunk_packet, chunk_stream, enter_packets, ground_chunk, join_packets, placing_packets,
};
use server::play::{parse_blockstates, AbortReason, Player, Reaction};
use server::seed::hash_seed;
use server::session::{disconnect_packet, Event, Message, Next, Phase, Session, Step};
use server::world::{Level, TaskClosure};
use server::{
    assemble, assemble_string, login_success, next_string, packet_too_short, RawPacket, Serialize,
    Slot, VarInt,
};

struct NoTask;

impl TaskClosure for NoTask {
    fn run(&mut self, _level: &mut Level<Self>) {}
}

fn settings() -> Settings {
    Settings {
        status: StatusConfig {
            protocol_version: 774,
            version_string: String::from("1.21.11"),
            echo_version: false,
            motd: String::from("hi"),
        },
        max_players: 2,
        world: WorldConfig {
            hardcore: false,
            view_distance: 1,
            simulation_distance: 6,
            reduced_debug_info: false,
            respawn_screen: true,
            limited_crafting: false,
            seed: 0,
            default_gamemode: 1,
            debug: false,
            superflat: true,
            portal_cooldown: 300,
            sea_level: 64,
            enforce_secure_chat: false,
        },
    }
}

fn packet(id: i32, data: Vec<u8>) -> RawPacket {
    RawPacket { length: VarInt::new(1 + data.len() as i32), id: VarInt::new(id), data }
}

fn event(id: i32, data: Vec<u8>) -> Event {
    Event::Packet(packet(id, data))
}

fn handshake(next: u8) -> Event {
    let mut data = VarInt::new(770).encode();
    data.extend(assemble_string("host").unwrap());
    data.extend([0x63, 0xDD, next]);
    event(0, data)
}

fn only(step: Step) -> Message {
    assert_eq!(step.send.len(), 1);
    step.send.into_iter().next().unwrap()
}

#[test]
fn the_status_is_told_and_the_ping_comes_back() {
    let mut s = Session::new();
    let mut settings = settings();
    assert_eq!(s.advance(handshake(1), &settings, 0).next, Next::Read);
    assert_eq!(s.phase, Phase::Status);
    assert_eq!((s.protocol, s.address.as_str(), s.port), (770, "host", 25565));
    let step = s.advance(event(0, vec![]), &settings, 1);
    assert_eq!(step.next, Next::Read);
    match only(step) {
        Message::Packet { id, data } => {
            assert_eq!(id, 0);
            let text = next_string(&data).unwrap();
            assert!(text.contains("\"protocol\": 774"));
            assert!(text.contains("\"max\": 2"));
            assert!(text.contains("\"online\": 1"));
            assert!(text.contains("\"text\" : \"hi\""));
        }
        _ => panic!("expected a packet"),
    }
    let step = s.advance(event(1, vec![1, 2, 3]), &settings, 0);
    assert_eq!(step.next, Next::Done);
    assert_eq!(s.phase, Phase::Closed);
    match only(step) {
        Message::Packet { id, data } => assert_eq!((id, data), (1, vec![1, 2, 3])),
        _ => panic!("expected a packet"),
    }
    settings.status.echo_version = true;
    let mut s = Session::new();
    s.advance(handshake(1), &settings, 0);
    match only(s.advance(event(0, vec![]), &settings, 0)) {
        Message::Packet { data, .. } => {
            assert!(next_string(&data).unwrap().contains("\"protocol\": 770"));
        }
        _ => panic!("expected a packet"),
    }
}

#[test]
fn a_full_server_says_so() {
    let settings = settings();
    let mut s = Session::new();
    assert_eq!(s.advance(handshake(2), &settings, 0).next, Next::Count);
    assert_eq!(s.phase, Phase::Admission);
    let step = s.count_in(2, &settings);
    assert_eq!(step.next, Next::Done);
    let expected: Vec<u8> = vec![
        0x21, 0x00, 0x1F, 0x7B, 0x22, 0x74, 0x65, 0x78, 0x74, 0x22, 0x3A, 0x20, 0x22, 0x54, 0x68,
        0x65, 0x20, 0x73, 0x65, 0x72, 0x76, 0x65, 0x72, 0x20, 0x69, 0x73, 0x20, 0x66, 0x75, 0x6C,
        0x6C, 0x21, 0x22, 0x7D,
    ];
    assert_eq!(disconnect_packet(), expected);
    match only(step) {
        Message::Raw(bytes) => assert_eq!(bytes, expected),
        _ => panic!("expected raw bytes"),
    }
    assert_eq!(s.count_in(0, &settings).next, Next::Fail);
}

fn logged_in(settings: &Settings) -> Session {
    let mut s = Session::new();
    s.advance(handshake(2), settings, 0);
    assert_eq!(s.count_in(1, settings).next, Next::Read);
    let mut data = assemble_string("Alex").unwrap();
    data.extend(77u128.to_be_bytes());
    let step = s.advance(event(0, data), settings, 0);
    assert_eq!(step.next, Next::Read);
    match only(step) {
        Message::Packet { id, data } => {
            assert_eq!((id, Some(data)), (2, login_success("Alex", 77, 0)));
        }
        _ => panic!("expected a packet"),
    }
    assert_eq!((s.name.as_str(), s.uuid, s.phase), ("Alex", 77, Phase::LoginAck));
    s
}

fn configuring(settings: &Settings) -> Session {
    let mut s = logged_in(settings);
    let step = s.advance(event(3, vec![]), settings, 0);
    assert_eq!(step.next, Next::Read);
    let mut expected = vec![1];
    for text in ["minecraft", "core", "1.21.11"] {
        expected.extend(assemble_string(text).unwrap());
    }
    match only(step) {
        Message::Packet { id, data } => assert_eq!((id, data), (0x0E, expected)),
        _ => panic!("expected a packet"),
    }
    s
}

#[test]
fn a_player_gets_from_the_handshake_to_the_game() {
    let settings = settings();
    let mut s = configuring(&settings);
    for e in [event(2, vec![9]), event(5, vec![]), Event::Invalid] {
        let step = s.advance(e, &settings, 0);
        assert_eq!((step.send.len(), step.next, s.phase), (0, Next::Read, Phase::Configuration));
    }
    let step = s.advance(event(7, vec![0]), &settings, 0);
    assert_eq!(step.next, Next::Read);
    assert!(matches!(step.send[0], Message::RegistryData));
    assert!(matches!(step.send[1], Message::UpdateTags));
    assert!(matches!(&step.send[2], Message::Packet { id: 3, data } if data.is_empty()));
    assert_eq!(step.send.len(), 3);
    assert_eq!(s.advance(event(3, vec![]), &settings, 0).next, Next::Join);
    assert_eq!(s.advance(Event::End, &settings, 0).next, Next::Play);
    assert_eq!(s.phase, Phase::Playing);
}

fn playing(settings: &Settings) -> Session {
    let mut s = configuring(settings);
    s.advance(event(7, vec![0]), settings, 0);
    s.advance(event(3, vec![]), settings, 0);
    s.advance(event(0, vec![]), settings, 0);
    assert_eq!(s.phase, Phase::Playing);
    s
}

#[test]
fn the_game_lasts_until_the_player_leaves() {
    let settings = settings();
    let mut s = playing(&settings);
    for id in [0x0C, 0x28, 0x55] {
        let step = s.advance(event(id, vec![1]), &settings, 0);
        assert_eq!((step.send.len(), step.next, s.phase), (0, Next::Read, Phase::Playing));
    }
    let step = s.advance(Event::End, &settings, 0);
    assert_eq!((step.send.len(), step.next, s.phase), (0, Next::Done, Phase::Closed));
    let mut s = playing(&settings);
    let step = s.advance(Event::Invalid, &settings, 0);
    assert_eq!((step.send.len(), step.next, s.phase), (0, Next::Fail, Phase::Closed));
}

#[test]
fn a_seed_of_zero_stands_for_a_random_one() {
    let mut settings = settings();
    assert_eq!(settings.world.level_seed(), None);
    settings.world.seed = -7;
    assert_eq!(settings.world.level_seed(), Some(-7));
}

#[test]
fn broken_sessions_fail_or_are_given_up() {
    let settings = settings();
    let mut s = Session::new();
    assert_eq!(s.uuid, 0xDEADBEEFDEADBEEFDEADBEEFDEADBEEF);
    assert_eq!(s.advance(event(0, vec![1, 9]), &settings, 0).next, Next::Fail);
    assert_eq!(s.phase, Phase::Closed);
    assert_eq!(s.advance(handshake(1), &settings, 0).next, Next::Fail);
    assert_eq!(Session::new().advance(Event::End, &settings, 0).next, Next::Fail);
    let mut s = logged_in(&settings);
    assert_eq!(s.advance(Event::Invalid, &settings, 0).next, Next::Fail);
    let mut s = configuring(&settings);
    assert_eq!(s.advance(Event::End, &settings, 0).next, Next::Fail);
    let mut s = configuring(&settings);
    assert_eq!(s.advance(event(7, vec![1, 5]), &settings, 0).next, Next::Abort);
    let mut s = configuring(&settings);
    let negative = vec![0xFF, 0xFF, 0xFF, 0xFF, 0x0F];
    assert_eq!(s.advance(event(7, negative), &settings, 0).next, Next::Abort);
    let mut s = configuring(&settings);
    s.advance(event(7, vec![0]), &settings, 0);
    assert_eq!(s.advance(Event::Invalid, &settings, 0).next, Next::Abort);
}

#[test]
fn entering_players_are_sent_their_packets() {
    let settings = settings();
    let packets = enter_packets(&settings, 0);
    let ids: Vec<i32> = packets.iter().map(|p| p.0).collect();
    assert_eq!(ids, vec![0x30, 0x26, 0x3E, 0x67, 0x83, 0x61, 0x5C]);
    assert_eq!(packets, join_packets(&settings, 0, hash_seed(0)));
    assert_ne!(packets, join_packets(&settings, 0, 0));
    assert_eq!(packets[1].1, vec![13, 0, 0, 0, 0]);
    let mut abilities = vec![0x0F];
    abilities.extend(0.05f32.to_be_bytes());
    abilities.extend(0.1f32.to_be_bytes());
    assert_eq!(packets[2].1, abilities);
    assert_eq!(packets[5].1, vec![1, 0xFF]);
    let mut spawn = assemble_string("minecraft:overworld").unwrap();
    spawn.extend((8i32, -30i32, 8i16).serialize());
    spawn.extend([0; 8]);
    let placing = placing_packets();
    assert_eq!((placing.len(), placing[0].0, placing[1].0), (2, 0x5F, 0x46));
    assert_eq!(placing[0].1, spawn);
    let mut position = vec![0];
    for v in [8.0f64, -30.0, 8.0, 0.0, 0.0, 0.0] {
        position.extend(v.to_be_bytes());
    }
    position.extend([0; 12]);
    assert_eq!(placing[1].1, position);
}

#[test]
fn the_square_of_chunks_is_sent_column_by_column() {
    let mut level: Level<NoTask> = Level::new(Some(1));
    let first = chunk_stream(&mut level, 1);
    let mut expected = vec![];
    for x in -1..=1 {
        for z in -1..=1 {
            expected.extend(assemble(0x2C, &ground_chunk().serialize(x, z)));
            assert!(level.get_chunk(x, z).is_some());
        }
    }
    assert_eq!(first, expected);
    assert!(level.get_chunk(2, 0).is_none());
    assert_eq!(chunk_stream(&mut level, 1), first);
    level.get_chunk_mut(0, 0).unwrap().set_block(0, 0, 0, 5);
    assert_ne!(chunk_stream(&mut level, 1), first);
    let mut level: Level<NoTask> = Level::new(Some(1));
    assert!(chunk_stream(&mut level, -1).is_empty());
    assert_eq!(chunk_packet(&mut level, 4, 5), assemble(0x2C, &ground_chunk().serialize(4, 5)));
}

fn table() -> Vec<u32> {
    let mut table = vec![0u32; 10];
    table[5] = 0x0001_0102;
    table[6] = 77;
    table
}

fn assert_chunk(level: &Level<NoTask>, x: i32, z: i32, changes: &[(u8, i32, u8, u16)]) {
    let mut expected = ground_chunk();
    for (bx, by, bz, state) in changes {
        expected.set_block(*bx, *by, *bz, *state);
    }
    assert_eq!(level.serialize(x, z), Some(expected.serialize(x, z)));
}

fn action(status: u8, x: i32, y: i16, z: i32) -> RawPacket {
    let mut data = vec![status];
    data.extend((x, z, y).serialize());
    data.extend([1, 0]);
    packet(0x28, data)
}

fn use_item(x: i32, y: i16, z: i32, face: u8) -> RawPacket {
    let mut data = vec![0];
    data.extend((x, z, y).serialize());
    data.push(face);
    data.extend([0; 14]);
    data.push(0);
    packet(0x3F, data)
}

fn level() -> Level<NoTask> {
    let mut level: Level<NoTask> = Level::new(Some(1));
    chunk_stream(&mut level, 2);
    level
}

#[test]
fn keep_alives_carry_a_number() {
    let mut player = Player::new();
    let mut level = level();
    let tick = packet(0x0C, vec![]);
    match player.react(&tick, &mut level, &[], 5) {
        Reaction::KeepAlive(bytes) => assert_eq!(bytes, vec![9, 0x2B, 0, 0, 0, 0, 0, 0, 0, 5]),
        _ => panic!("expected a keep-alive"),
    }
    let mut seen = vec![];
    for _ in 0..8 {
        match player.receive(&tick, &mut level, &[]) {
            Reaction::KeepAlive(bytes) => {
                assert_eq!((bytes.len(), bytes[0], bytes[1]), (10, 9, 0x2B));
                seen.push(bytes);
            }
            _ => panic!("expected a keep-alive"),
        }
    }
    assert!(seen.iter().any(|b| *b != seen[0]));
}

#[test]
fn mined_blocks_are_gone() {
    let mut player = Player::new();
    let mut level = level();
    match player.receive(&action(0, 17, -40, 3), &mut level, &[]) {
        Reaction::Mined { x, y, z } => assert_eq!((x, y, z), (17, -40, 3)),
        _ => panic!("expected mining"),
    }
    assert_chunk(&level, 1, 0, &[(1, -40, 3, 0)]);
    assert_chunk(&level, 0, 0, &[]);
    assert!(matches!(
        player.receive(&action(1, 17, -41, 3), &mut level, &[]),
        Reaction::MiningIgnored { status: 1 }
    ));
    assert_chunk(&level, 1, 0, &[(1, -40, 3, 0)]);
    match player.receive(&action(2, 1000, 0, 3), &mut level, &[]) {
        Reaction::Failed(e) => assert_eq!(e, "Mined block in unloaded chunk"),
        _ => panic!("expected a failure"),
    }
    match player.receive(&packet(0x28, vec![0]), &mut level, &[]) {
        Reaction::Failed(e) => assert_eq!(e, packet_too_short("player_action")),
        _ => panic!("expected a failure"),
    }
}

#[test]
fn mining_rounds_chunks_towards_zero() {
    let mut player = Player::new();
    let mut level = level();
    player.receive(&action(0, -1, -40, 0), &mut level, &[]);
    assert_chunk(&level, 0, 0, &[(15, -40, 0, 0)]);
    assert_chunk(&level, -1, 0, &[]);
}

#[test]
fn slots_are_filled_and_emptied() {
    let mut player = Player::new();
    let mut level = level();
    assert!((0..46).all(|i| matches!(player.slot(i), Some(Slot::Empty))));
    assert!(player.slot(46).is_none());
    let set = |data: Vec<u8>| packet(0x37, data);
    assert!(matches!(
        player.receive(&set(vec![0, 36, 3, 5, 0, 0]), &mut level, &[]),
        Reaction::SlotFilled { slot: 36, id: 5 }
    ));
    assert!(matches!(
        player.slot(36),
        Some(Slot::Occupied { components, id: 5, count: 3 }) if components.is_empty()
    ));
    assert!(matches!(
        player.receive(&set(vec![0, 36, 0]), &mut level, &[]),
        Reaction::SlotEmptied { slot: 36 }
    ));
    assert!(matches!(player.slot(36), Some(Slot::Empty)));
    player.receive(&set(vec![0, 1, 0x81, 0x02, 5, 0, 0]), &mut level, &[]);
    assert!(matches!(player.slot(1), Some(Slot::Occupied { count: 1, .. })));
    let gone = vec![0, 1, 1, 0xFF, 0xFF, 0xFF, 0xFF, 0x0F, 0, 0];
    assert!(matches!(
        player.receive(&set(gone), &mut level, &[]),
        Reaction::SlotEmptied { slot: 1 }
    ));
    assert!(matches!(
        player.receive(&set(vec![0xFF, 0xFF, 0]), &mut level, &[]),
        Reaction::SlotIgnored
    ));
    assert!(matches!(
        player.receive(&set(vec![0xFF, 0xFE, 0]), &mut level, &[]),
        Reaction::SlotNegative
    ));
    assert!(matches!(
        player.receive(&set(vec![0, 46, 1, 5, 0, 0]), &mut level, &[]),
        Reaction::SlotOutOfBounds
    ));
    assert!(matches!(player.receive(&set(vec![0]), &mut level, &[]), Reaction::Failed(_)));
}

#[test]
fn held_items_are_placed() {
    let mut player = Player::new();
    let mut level = level();
    let table = table();
    player.receive(&packet(0x37, vec![0, 38, 1, 5, 0, 0]), &mut level, &table);
    assert!(matches!(
        player.receive(&packet(0x34, vec![0, 2]), &mut level, &table),
        Reaction::HeldSlotSet
    ));
    assert_eq!(player.hotbar_slot(), 2);
    match player.receive(&use_item(-1, -33, 0, 1), &mut level, &table) {
        Reaction::Placed { x, y, z, block } => {
            assert_eq!((x, y, z, block), (-1, -32, 0, 0x0102));
        }
        _ => panic!("expected a placed block"),
    }
    assert_chunk(&level, -1, 0, &[(15, -32, 0, 0x0102)]);
    let places = [(0, -1, 0), (0, 1, 0), (0, 0, -1), (0, 0, 1), (-1, 0, 0), (1, 0, 0)];
    for (face, (dx, dy, dz)) in places.iter().enumerate() {
        match player.receive(&use_item(5, 10, 5, face as u8), &mut level, &table) {
            Reaction::Placed { x, y, z, .. } => {
                assert_eq!((x, y as i32, z), (5 + dx, 10 + dy, 5 + dz));
            }
            _ => panic!("expected a placed block"),
        }
    }
    match player.receive(&use_item(5, 10, 5, 6), &mut level, &table) {
        Reaction::Failed(e) => assert_eq!(e, "Invalid Face for VarInt Enum during Use Item On"),
        _ => panic!("expected a failure"),
    }
    assert!(matches!(
        player.receive(&packet(0x3F, vec![]), &mut level, &table),
        Reaction::Failed(_)
    ));
    assert!(matches!(
        player.receive(&packet(0x55, vec![]), &mut level, &table),
        Reaction::Unknown { id: 0x55 }
    ));
}

#[test]
fn games_that_cannot_go_on() {
    let mut player = Player::new();
    let mut level = level();
    let table = table();
    let abort = |r: Reaction| match r {
        Reaction::Abort(reason) => reason,
        _ => panic!("expected the end"),
    };
    let held = packet(0x34, vec![0, 1, 2]);
    assert_eq!(abort(player.receive(&held, &mut level, &table)), AbortReason::CarriedItem);
    player.receive(&packet(0x34, vec![0, 10]), &mut level, &table);
    let used = use_item(0, 0, 0, 1);
    assert_eq!(abort(player.receive(&used, &mut level, &table)), AbortReason::HotbarSlot);
    player.receive(&packet(0x34, vec![0, 0]), &mut level, &table);
    player.receive(&packet(0x37, vec![0, 36, 1, 10, 0, 0]), &mut level, &table);
    assert_eq!(abort(player.receive(&used, &mut level, &table)), AbortReason::UnknownItem);
    player.receive(&packet(0x37, vec![0, 36, 0]), &mut level, &table);
    let far = use_item(4000, 0, 0, 1);
    assert_eq!(abort(player.receive(&far, &mut level, &table)), AbortReason::UnloadedChunk);
}

#[test]
fn tables_of_block_states() {
    let mut bytes = vec![0u8; 6020];
    bytes[0] = 1;
    bytes[4..8].copy_from_slice(&0x0102_0304u32.to_le_bytes());
    bytes[6016..].copy_from_slice(&u32::MAX.to_le_bytes());
    let table = parse_blockstates(&bytes).unwrap();
    assert_eq!(table.len(), 1505);
    assert_eq!((table[0], table[1], table[2], table[1504]), (1, 0x0102_0304, 0, u32::MAX));
    assert!(parse_blockstates(&bytes[..6019]).is_none());
    assert!(parse_blockstates(&[]).is_none());
}
