//! Snapshots and clips: the remote commands, and when the monitor's latest
//! frame is fresh enough to serve as a snapshot.

use vstd::prelude::*;
use crate::audio::{decimal, push_decimal};

verus! {

/// The monitor's latest frame serves as a snapshot while it is less than
/// this old (10 s, counted in whole seconds).
pub const LATEST_FRAME_MAX_AGE_SECS: u64 = 10;

/// Whether a frame `age_ns` nanoseconds old is fresh (its age in whole
/// seconds is under the limit).
pub fn snapshot_is_fresh(age_ns: u64) -> (r: bool)
    ensures
        r == (age_ns / 1_000_000_000 < LATEST_FRAME_MAX_AGE_SECS),
{
    age_ns / 1_000_000_000 < LATEST_FRAME_MAX_AGE_SECS
}

/// The command that records a `duration`-second clip on the device.
pub open spec fn clip_text(duration: nat) -> Seq<char> {
    "clawcam _clip --dur "@ + decimal(duration) + " --out /tmp/clawcam_clip.mp4"@
}

pub fn clip_command(duration: u32) -> (r: String)
    ensures
        r@ == clip_text(duration as nat),
{
    let mut c = String::new();
    c.append("clawcam _clip --dur ");
    push_decimal(&mut c, duration as u64);
    c.append(" --out /tmp/clawcam_clip.mp4");
    assert(c@ =~= clip_text(duration as nat));
    c
}

} // verus!
