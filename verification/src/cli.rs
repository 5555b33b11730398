//! The tool's configuration: where to read completion statuses from and
//! where the beatmap-set files live.

use vstd::prelude::*;

verus! {

/// The two locations the tool works from, as plain path strings: the osu!
/// installation whose databases hold the statuses, and the folder or
/// archive holding the beatmap-set files.
pub struct CliArguments {
    pub osu_source: String,
    pub packs_source: String,
}

impl CliArguments {
    /// Arguments from the two path strings.
    pub fn new(osu_source: String, packs_source: String) -> (r: CliArguments)
        ensures
            r.osu_source@ == osu_source@,
            r.packs_source@ == packs_source@,
    {
        CliArguments { osu_source, packs_source }
    }
}

} // verus!
