use vstd::prelude::*;

verus! {

/// Parameters of one generation run. Every field must be positive.
#[derive(Clone, Copy, Debug, PartialEq, Eq)]
pub struct GenerationSettings {
    /// How many caverns to place, the one at the centre included.
    pub cavern_count: usize,
    /// A new cavern must lie closer than this to a cavern placed before it.
    pub max_cavern_dist: usize,
    /// How many walks are carved from each cavern.
    pub walk_count: usize,
    /// How many steps each walk takes.
    pub walk_len: usize,
}

/// Bounds on the two loops of a run that chance alone would end.
#[derive(Clone, Copy, Debug, PartialEq, Eq)]
pub struct GenerationLimits {
    /// How many positions may be drawn while placing caverns.
    pub max_placement_attempts: usize,
    /// How many steps one connecting tunnel may take.
    pub max_tunnel_steps: usize,
}

/// Why a generation run gave up.
#[derive(Clone, Copy, Debug, PartialEq, Eq)]
pub enum GenerationError {
    /// Too many drawn positions were rejected while placing caverns.
    PlacementTimeout,
    /// A tunnel used up its steps before its two caverns were connected.
    ConnectionFailed { from: (usize, usize), to: (usize, usize) },
    /// A field of the settings is zero.
    InvalidSettings,
}

impl GenerationSettings {
    /// Every field is positive.
    pub open spec fn valid(self) -> bool {
        &&& self.cavern_count > 0
        &&& self.max_cavern_dist > 0
        &&& self.walk_count > 0
        &&& self.walk_len > 0
    }

    /// Whether every field is positive.
    pub fn is_valid(&self) -> (b: bool)
        ensures
            b == self.valid(),
    {
        self.cavern_count > 0 && self.max_cavern_dist > 0 && self.walk_count > 0 && self.walk_len
            > 0
    }
}

} // verus!
