//! What the server can be told to do.
use vstd::prelude::*;

verus! {

/// What the server says of itself.
pub struct StatusConfig {
    pub protocol_version: i32,
    pub version_string: String,
    /// Whether clients are told their own protocol version.
    pub echo_version: bool,
    pub motd: String,
}

/// What the world is like.
pub struct WorldConfig {
    pub hardcore: bool,
    pub view_distance: i32,
    pub simulation_distance: i32,
    pub reduced_debug_info: bool,
    pub respawn_screen: bool,
    pub limited_crafting: bool,
    pub seed: i64,
    pub default_gamemode: u8,
    pub debug: bool,
    pub superflat: bool,
    pub portal_cooldown: i32,
    pub sea_level: i32,
    pub enforce_secure_chat: bool,
}

impl WorldConfig {
    /// The seed of the world; `None` for a random one, which 0 stands for.
    pub fn level_seed(&self) -> (r: Option<i64>)
        ensures
            r == if self.seed == 0 {
                None
            } else {
                Some(self.seed)
            },
    {
        if self.seed == 0 {
            None
        } else {
            Some(self.seed)
        }
    }
}

/// All that sessions depend on.
pub struct Settings {
    pub status: StatusConfig,
    pub max_players: i32,
    pub world: WorldConfig,
}

} // verus!
