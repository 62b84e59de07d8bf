//! Simulation parameters, fixed before the simulation starts.
use crate::geometry::Ratio;
use vstd::prelude::*;

verus! {

/// Parameters of one flocking rule.
#[derive(Clone, Copy, Debug, PartialEq, Eq, Structural)]
pub struct RuleConfig {
    /// Neighbours farther away than this do not count for the rule.
    pub radius: i32,
    /// Factor applied to the rule's force.
    pub strength: Ratio,
}

impl RuleConfig {
    pub open spec fn wf(self) -> bool {
        self.radius >= 0 && self.strength.wf()
    }

    pub fn new(radius: i32, strength: Ratio) -> (r: RuleConfig)
        ensures
            r.radius == radius,
            r.strength == strength,
    {
        RuleConfig { radius, strength }
    }

    /// Whether the parameters are usable: [`RuleConfig::wf`].
    pub fn is_valid(&self) -> (r: bool)
        ensures
            r == self.wf(),
    {
        self.radius >= 0 && self.strength.is_valid()
    }
}

/// Top-level parameters of the simulation.
#[derive(Clone, Copy, Debug, PartialEq, Eq, Structural)]
pub struct GameConfig {
    pub drone_count: usize,
    pub spatial_map_cell_size: i32,
    pub drone_max_speed: i32,
    pub cohesion_config: RuleConfig,
    pub separation_config: RuleConfig,
    pub alignment_config: RuleConfig,
}

impl GameConfig {
    pub open spec fn wf(self) -> bool {
        &&& self.spatial_map_cell_size > 0
        &&& 0 <= self.drone_max_speed
        &&& self.cohesion_config.wf()
        &&& self.separation_config.wf()
        &&& self.alignment_config.wf()
    }

    /// Whether the parameters are usable: [`GameConfig::wf`].
    pub fn is_valid(&self) -> (r: bool)
        ensures
            r == self.wf(),
    {
        self.spatial_map_cell_size > 0 && 0 <= self.drone_max_speed && self.cohesion_config.is_valid() && self.separation_config.is_valid()
            && self.alignment_config.is_valid()
    }
}

} // verus!
