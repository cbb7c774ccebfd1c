//! The decision read off the bridge tool's device listing: the tool
//! prints the attached devices after a fixed banner line, so a listing
//! whose trimmed output ends with that banner shows no device.

use vstd::prelude::*;

use crate::text::{ends_with_spec, ends_with_str, trim_end_spec, trim_end_str};

verus! {

/// A device is attached exactly when the trimmed device listing does
/// not end with the bare banner line.
pub open spec fn device_attached_spec(out: Seq<char>) -> bool {
    !ends_with_spec(trim_end_spec(out), "List of devices attached"@)
}

/// Decides from the device listing's text whether a device is attached.
pub fn device_attached(output: &str) -> (r: bool)
    ensures
        r == device_attached_spec(output@),
{
    let t = trim_end_str(output);
    !ends_with_str(t.as_str(), "List of devices attached")
}

} // verus!
