//! A game server: the packets that it exchanges with its clients, the world that they play in, and
//! the course of a connection.
pub mod clientbound;
pub mod codec;
pub mod config;
pub mod cursor;
pub mod join;
pub mod laws;
pub mod login;
pub mod nonzero;
pub mod num;
pub mod packs;
pub mod play;
pub mod random;
pub mod seed;
pub mod serialize;
pub mod serverbound;
pub mod session;
pub mod status;
pub mod text;
pub mod varint;
pub mod world;

pub use crate::clientbound::{
    bundle_delimiter, empty_bitset, full_bitset, game_event, keep_alive, keep_alive_with_packet_id,
    level_chunk_with_light, light_section, player_abilities, player_position,
    set_chunk_cache_center, set_default_spawn_position, set_entity_metadata, set_held_slot,
    update_recipes, ALLOW_FLYING, CREATIVE, FLYING, INVUNERABLE, RELATIVE_PITCH,
    RELATIVE_VELOCITY_X, RELATIVE_VELOCITY_Y, RELATIVE_VELOCITY_Z, RELATIVE_X, RELATIVE_Y,
    RELATIVE_YAW, RELATIVE_Z, ROTATE_VELOCITY,
};
pub use crate::codec::{assemble, CodecError, MCCodec, RawPacket};
pub use crate::cursor::consume_bytes;
pub use crate::login::{login_play, login_start, login_success, stage_0};
pub use crate::nonzero::{NonZeroU32, NonZeroU64};
pub use crate::packs::{
    create_entry, create_known_packs, create_registry, create_tags, decode_plugin_message,
    parse_known_packs, KnownPack,
};
pub use crate::play::Slot;
pub use crate::serialize::Serialize;
pub use crate::serverbound::{
    decode_player_action, decode_set_creative_mode_slot, decode_slot, decode_use_item_on,
    next_position, packet_too_short, SlotFormat,
};
pub use crate::text::{assemble_string, next_string, next_string_len};
pub use crate::varint::{DecodeResult, VarInt};
