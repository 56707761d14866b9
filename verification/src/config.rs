//! Plain configuration records the host reads from its configuration files
//! and hands to the logic core.

use vstd::prelude::*;

verus! {

/// Log verbosity settings.
pub struct Logging {
    pub level: String,
    pub filter: String,
}

/// Where level packs live and how the current level is handled at startup.
pub struct LevelConfig {
    pub dir: String,
    pub cur_level: String,
    pub gen_on_start: bool,
    pub save_on_start: bool,
}

} // verus!
