use server::join::{EIGHT, FLYING_SPEED, FOV_MODIFIER, MINUS_THIRTY};
use server::seed::{hash_seed, leading_number};
use server::status::{log_level, status_response, LogLevel};
use server::{
    assemble, assemble_string, bundle_delimiter, create_entry, create_known_packs,
    create_registry, create_tags, decode_player_action, decode_plugin_message,
    decode_set_creative_mode_slot, decode_slot, decode_use_item_on, empty_bitset, full_bitset,
    game_event, keep_alive, keep_alive_with_packet_id, level_chunk_with_light, light_section,
    login_play, login_start, login_success, next_position, next_string, packet_too_short,
    parse_known_packs, player_abilities, player_position, set_chunk_cache_center,
    set_default_spawn_position, set_entity_metadata, set_held_slot, stage_0, update_recipes,
    KnownPack, NonZeroU32, Serialize, VarInt, ALLOW_FLYING, CREATIVE, FLYING, INVUNERABLE,
    RELATIVE_PITCH, RELATIVE_VELOCITY_X, RELATIVE_VELOCITY_Y, RELATIVE_VELOCITY_Z, RELATIVE_X,
    RELATIVE_Y, RELATIVE_YAW, RELATIVE_Z, ROTATE_VELOCITY,
};

fn pack(namespace: &str, id: &str, version: &str) -> KnownPack {
    KnownPack {
        namespace: namespace.to_string(),
        id: id.to_string(),
        version: version.to_string(),
    }
}

#[test]
fn known_packs_round_trip() {
    let mut buf = vec![];
    create_known_packs(vec![pack("minecraft", "core", "1.21.11"), pack("a", "", "b")], &mut buf);
    assert_eq!(&buf[..11], &[2, 9, b'm', b'i', b'n', b'e', b'c', b'r', b'a', b'f', b't'][..]);
    let packs = parse_known_packs(&buf).unwrap();
    assert_eq!(packs.len(), 2);
    assert_eq!(packs[0].namespace, "minecraft");
    assert_eq!(packs[0].id, "core");
    assert_eq!(packs[0].version, "1.21.11");
    assert_eq!(packs[1].namespace, "a");
    assert_eq!(packs[1].id, "");
    assert_eq!(packs[1].version, "b");
    assert!(parse_known_packs(&buf[..buf.len() - 1]).is_none());
    assert_eq!(parse_known_packs(&[]).unwrap().len(), 0);
}

#[test]
fn plugin_messages_are_two_texts() {
    let mut data = assemble_string("minecraft:brand").unwrap();
    data.extend(assemble_string("vanilla").unwrap());
    let (channel, message) = decode_plugin_message(&data).unwrap();
    assert_eq!((channel.as_str(), message.as_str()), ("minecraft:brand", "vanilla"));
    assert!(decode_plugin_message(&data[..data.len() - 1]).is_none());
    assert!(decode_plugin_message(&[5, b'a']).is_none());
}

#[test]
fn registries_have_one_entry_each() {
    assert_eq!(create_entry("a", "bc"), vec![1, b'a', 1, 2, b'b', b'c', 0]);
    let mut expected = vec![];
    for (registry, entry) in [
        ("minecraft:worldgen/biome", "minecraft:plains"),
        ("minecraft:chat_type", "minecraft:chat"),
        ("minecraft:dimension_type", "minecraft:overworld"),
        ("minecraft:damage_type", "minecraft:out_of_world"),
    ] {
        expected.extend(assemble(7, &create_entry(registry, entry)));
    }
    assert_eq!(create_registry(), Some(expected));
    assert_eq!(create_tags(vec![]), vec![0x02, 0x0D, 0x00]);
}

#[test]
fn handshakes_round_trip() {
    let mut data = VarInt::new(774).encode();
    data.extend(assemble_string("localhost").unwrap());
    data.extend(25565u16.to_be_bytes());
    data.push(2);
    let (protocol, address, port, next) = stage_0(&data).unwrap();
    assert_eq!(protocol.value(), 774);
    assert_eq!(address, "localhost");
    assert_eq!(port, 25565);
    assert_eq!(next.value(), 2);
    let mut longer = data.clone();
    longer.extend([0xFF, 0xFF]);
    let (_, address, _, next) = stage_0(&longer).unwrap();
    assert_eq!((address.as_str(), next.value()), ("localhost", 2));
    let (_, _, _, next) = stage_0(&data[..data.len() - 1]).unwrap();
    assert_eq!(next.value(), 0);
    assert!(stage_0(&data[..data.len() - 2]).is_none());
    assert!(stage_0(&[1, 5, b'a']).is_none());
}

#[test]
fn logins_round_trip() {
    let mut data = assemble_string("Steve").unwrap();
    data.extend(0x0123_4567_89AB_CDEF_0011_2233_4455_6677u128.to_be_bytes());
    data.push(1);
    let (name, uuid) = login_start(&data).unwrap();
    assert_eq!(name, "Steve");
    assert_eq!(uuid, 0x0123_4567_89AB_CDEF_0011_2233_4455_6677);
    assert!(login_start(&data[..21]).is_none());
    assert!(login_start(&[9, b'x']).is_none());
    let mut expected = uuid.to_be_bytes().to_vec();
    expected.extend([5, b'S', b't', b'e', b'v', b'e', 0]);
    assert_eq!(login_success("Steve", uuid, 0), Some(expected));
}

#[test]
fn the_first_packet_of_the_game() {
    let names = [String::from("a"), String::from("bc")];
    let out = login_play(
        7, true, &names, 20, 10, 6, false, true, false, 0, String::from("a"), -2, 1, -1, false,
        true, None, 300, 64, false,
    );
    let mut expected = vec![0, 0, 0, 7, 1, 2, 1, b'a', 2, b'b', b'c', 20, 10, 6, 0, 1, 0, 0, 1, b'a'];
    expected.extend((-2i64).to_be_bytes());
    expected.extend([1, 0xFF, 0, 1, 0, 0xAC, 0x02, 64, 0]);
    assert_eq!(out, expected);
    let out = login_play(
        0, false, &[], 0, 0, 0, false, false, false, 0, String::new(), 0, 0, 0, false, false,
        Some((String::from("d"), (1, 2, 3))), 0, 0, true,
    );
    let mut expected = vec![0, 0, 0, 0, 0, 0, 0, 0, 0, 0, 0, 0, 0, 0];
    expected.extend([0; 8]);
    expected.extend([0, 0, 0, 0, 1, 1, b'd']);
    expected.extend((1i32, 2i32, 3i16).serialize());
    expected.extend([0, 0, 1]);
    assert_eq!(out, expected);
}

#[test]
fn small_packets() {
    assert_eq!(game_event(13, 1.5f32.to_bits()), vec![13, 0x3F, 0xC0, 0, 0]);
    let mut expected = vec![0x0F];
    expected.extend(0.05f32.to_be_bytes());
    expected.extend(0.1f32.to_be_bytes());
    let flags = INVUNERABLE | FLYING | ALLOW_FLYING | CREATIVE;
    assert_eq!(player_abilities(flags, FLYING_SPEED, FOV_MODIFIER), expected);
    assert_eq!(set_held_slot(300), vec![0xAC, 0x02]);
    assert_eq!(update_recipes(), vec![0, 0]);
    assert_eq!(set_entity_metadata(1), vec![1, 0xFF]);
    assert_eq!(bundle_delimiter(), Vec::<u8>::new());
    assert_eq!(set_chunk_cache_center(0, -1), vec![0, 0xFF, 0xFF, 0xFF, 0xFF, 0x0F]);
    assert_eq!(full_bitset(26), vec![1, 0, 0, 0, 0, 0x03, 0xFF, 0xFF, 0xFF]);
    assert_eq!(full_bitset(0), vec![1, 0, 0, 0, 0, 0, 0, 0, 0]);
    assert_eq!(full_bitset(63), vec![1, 0x7F, 0xFF, 0xFF, 0xFF, 0xFF, 0xFF, 0xFF, 0xFF]);
    assert_eq!(empty_bitset(), vec![0]);
    assert!(light_section().iter().all(|b| *b == 0xFF));
}

#[test]
fn positions_of_players() {
    assert_eq!(f64::from_bits(EIGHT), 8.0);
    assert_eq!(f64::from_bits(MINUS_THIRTY), -30.0);
    let bits = |v: f64| v.to_bits();
    let out = player_position(
        3, bits(8.0), bits(-30.0), bits(8.5), 0, 0, bits(1.0), 1.0f32.to_bits(), 2.0f32.to_bits(),
        RELATIVE_X | ROTATE_VELOCITY,
    );
    let mut expected = vec![3];
    for v in [8.0f64, -30.0, 8.5, 0.0, 0.0, 1.0] {
        expected.extend(v.to_be_bytes());
    }
    expected.extend(1.0f32.to_be_bytes());
    expected.extend(2.0f32.to_be_bytes());
    expected.extend([0, 0, 1, 1]);
    assert_eq!(out, expected);
    let all = RELATIVE_X | RELATIVE_Y | RELATIVE_Z | RELATIVE_YAW | RELATIVE_PITCH
        | RELATIVE_VELOCITY_X | RELATIVE_VELOCITY_Y | RELATIVE_VELOCITY_Z | ROTATE_VELOCITY;
    assert_eq!(all, 0x1FF);
    let out = set_default_spawn_position(String::from("w"), (8, -30, 8), 1.0f32.to_bits(), 0);
    let mut expected = vec![1, b'w'];
    expected.extend((8i32, -30i32, 8i16).serialize());
    expected.extend(1.0f32.to_be_bytes());
    expected.extend([0, 0, 0, 0]);
    assert_eq!(out, expected);
}

#[test]
fn keep_alive_packets_are_whole() {
    assert_eq!(keep_alive(-2), (-2i64).to_be_bytes().to_vec());
    assert_eq!(keep_alive_with_packet_id(5), vec![0x09, 0x2B, 0, 0, 0, 0, 0, 0, 0, 5]);
    assert_eq!(keep_alive_with_packet_id(-9), assemble(0x2B, &keep_alive(-9)));
}

#[test]
fn plain_chunks() {
    let out = level_chunk_with_light(1, -2);
    let mut expected = vec![0, 0, 0, 1, 0xFF, 0xFF, 0xFF, 0xFE, 0, 0x90, 0x01];
    for _ in 0..2 {
        expected.extend([0x10, 0, 0, 1, 0, 55]);
    }
    for _ in 0..22 {
        expected.extend([0, 0, 0, 0, 0, 55]);
    }
    expected.push(0);
    expected.extend(full_bitset(26));
    expected.extend([0, 0]);
    expected.extend(full_bitset(26));
    expected.push(26);
    for _ in 0..26 {
        expected.extend([0x80, 0x10]);
        expected.extend([0xFF; 2048]);
    }
    expected.push(0);
    assert_eq!(out, expected);
}

#[test]
fn block_positions_round_trip() {
    for (x, y, z) in [(0, 0, 0), (-1, -64, 1), (33_554_431, 2047, -33_554_432), (-5, -2048, 9)] {
        let mut data = vec![7];
        data.extend((x, z, y).serialize());
        assert_eq!(next_position(&data, 1, "p"), Ok((x, y, z)));
    }
    assert_eq!(next_position(&[0; 8], 1, "p"), Err(packet_too_short("p")));
    assert_eq!(next_position(&[0; 8], usize::MAX, "p"), Err(packet_too_short("p")));
    assert_eq!(
        packet_too_short("use_item_on"),
        "Failed to decode packet serverbound/minecraft:use_item_on: Not enough bytes in buffer"
    );
}

#[test]
fn player_actions() {
    let mut data = vec![2];
    data.extend((-3i32, 4i32, 70i16).serialize());
    data.push(1);
    data.extend([0xAC, 0x02]);
    assert_eq!(decode_player_action(&data), Ok((2, (-3, 70, 4), 1, 300)));
    let err = |r: Result<(i32, (i32, i16, i32), u8, i32), String>| r.unwrap_err();
    assert_eq!(err(decode_player_action(&[])), "VarInt too big");
    assert_eq!(err(decode_player_action(&data[..8])), packet_too_short("player_action"));
    assert_eq!(err(decode_player_action(&data[..9])), "Unknown error");
    assert_eq!(err(decode_player_action(&data[..10])), "VarInt too big");
}

#[test]
fn uses_of_items() {
    let mut data = vec![0];
    data.extend((1i32, 2i32, -3i16).serialize());
    data.push(5);
    for v in [0.25f32, 0.5, 1.0] {
        data.extend(v.to_be_bytes());
    }
    data.extend([0, 1, 9]);
    let (hand, position, face, cx, cy, cz, inside, hit, seq) = decode_use_item_on(&data).unwrap();
    assert_eq!((hand, position, face), (0, (1, -3, 2), 5));
    assert_eq!((f32::from_bits(cx), f32::from_bits(cy), f32::from_bits(cz)), (0.25, 0.5, 1.0));
    assert_eq!((inside, hit, seq), (false, true, 9));
    for k in 0..24 {
        assert_eq!(decode_use_item_on(&data[..k]).unwrap_err(), packet_too_short("use_item_on"));
    }
    assert_eq!(decode_use_item_on(&data[..24]).unwrap_err(), "VarInt too big");
}

#[test]
fn slots_of_items() {
    let items = decode_slot(&[3, 0xAC, 0x02, 0, 0], "p").unwrap().unwrap();
    assert_eq!((items.count.get(), items.id), (3, 300));
    assert!(items.components_to_add.is_empty());
    assert!(items.components_to_remove.is_empty());
    assert!(decode_slot(&[0], "p").unwrap().is_none());
    for k in [0usize, 1, 3, 4] {
        let data = [3u8, 0xAC, 0x02, 0, 0];
        assert_eq!(decode_slot(&data[..k], "p").err(), Some(String::from("VarInt too big")));
    }
    let (slot, items) = decode_set_creative_mode_slot(&[0, 36, 1, 5, 0, 0]).unwrap();
    assert_eq!((slot, items.unwrap().id), (36, 5));
    let (slot, items) = decode_set_creative_mode_slot(&[0xFF, 0xFF, 0]).unwrap();
    assert_eq!(slot, -1);
    assert!(items.is_none());
    assert_eq!(
        decode_set_creative_mode_slot(&[0]).err(),
        Some(packet_too_short("set_creative_mode_slot"))
    );
    assert_eq!(
        decode_set_creative_mode_slot(&[0, 1]).err(),
        Some(String::from("VarInt too big"))
    );
    assert!(NonZeroU32::new(0).is_none());
    assert_eq!(NonZeroU32::new(8).unwrap().get(), 8);
}

#[test]
fn seeds_are_hashed() {
    assert_eq!(hash_seed(0), -5812615543772869766);
    assert_eq!(hash_seed(1), -3664133403169687886);
    assert_eq!(hash_seed(-1), 1343108722416799325);
    assert_eq!(leading_number(&[0, 0, 0, 0, 0, 0, 1, 2, 9]), 258);
    assert_eq!(leading_number(&[0xFF; 8]), -1);
}

#[test]
fn the_status_is_a_text() {
    let out = status_response("1.21.11", 774, 20, -3, "A Minecraft Server").unwrap();
    let expected = concat_lines(&[
        "{",
        "    \"version\": {",
        "        \"name\": \"1.21.11\",",
        "        \"protocol\": 774",
        "    },",
        "    \"players\": {",
        "        \"max\": 20,",
        "        \"online\": -3,",
        "        \"sample\": []",
        "    },",
        "    \"description\": {",
        "        \"text\" : \"A Minecraft Server\"",
        "    }",
        "}",
    ]);
    assert_eq!(next_string(&out), Some(expected));
}

fn concat_lines(lines: &[&str]) -> String {
    let mut s = String::new();
    for line in lines {
        s.push_str(line);
        s.push('\n');
    }
    s
}

#[test]
fn decimal_numbers() {
    for n in [0, 7, 10, 99, 100, 2147483647, -1, -10, i32::MIN] {
        let mut s = String::from("n");
        server::status::append_decimal(&mut s, n);
        assert_eq!(s, format!("n{}", n));
    }
}

#[test]
fn log_levels_by_name() {
    assert_eq!(log_level("TRACE"), (LogLevel::Trace, true));
    assert_eq!(log_level("debug"), (LogLevel::Debug, true));
    assert_eq!(log_level("Info"), (LogLevel::Info, true));
    assert_eq!(log_level("wARN"), (LogLevel::Warn, true));
    assert_eq!(log_level("ERROR"), (LogLevel::Error, true));
    assert_eq!(log_level("LOUD"), (LogLevel::Info, false));
    assert_eq!(log_level(""), (LogLevel::Info, false));
    assert_eq!(log_level("\u{130}NFO"), (LogLevel::Info, false));
}
