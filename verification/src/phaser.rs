use vstd::prelude::*;

verus! {

/// Largest number of allpass stages in the phaser.
pub const MAX_STAGES: usize = 6;

/// Number of allpass stages used for a wanted number: at most `MAX_STAGES`.
pub fn active_stages(wanted: usize) -> (r: usize)
    ensures
        r == if wanted > MAX_STAGES { MAX_STAGES } else { wanted },
{
    if wanted > MAX_STAGES {
        MAX_STAGES
    } else {
        wanted
    }
}

} // verus!
