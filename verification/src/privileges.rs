//! Deciding, from the text of the OS's group listing, whether the current
//! process runs with administrative rights. Obtaining that text is the
//! caller's business; the decision itself is plain string logic.

use crate::strings::{contains_seq, contains_sub};
use vstd::prelude::*;

verus! {

/// Whether a group listing shows administrative rights: the well-known
/// administrators group present as an enabled group, or a high mandatory
/// integrity level.
pub open spec fn elevation_shown(groups: Seq<char>) -> bool {
    (contains_seq(groups, "S-1-5-32-544"@) && contains_seq(groups, "Enabled group"@))
        || contains_seq(groups, "S-1-16-12288"@)
}

/// Decides elevation from the group listing text.
pub fn elevation_indicated(groups: &str) -> (b: bool)
    ensures
        b == elevation_shown(groups@),
{
    (contains_sub(groups, "S-1-5-32-544") && contains_sub(groups, "Enabled group"))
        || contains_sub(groups, "S-1-16-12288")
}

} // verus!
