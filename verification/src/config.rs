use vstd::prelude::*;
use crate::error::ConfigError;
use crate::neighborhood::has_set_entry;
use crate::neighborhood::is_rectangular;
use crate::neighborhood::mask_has_entry;
use crate::neighborhood::mask_rectangular;

verus! {

/// The parameters of a simulation that are counted rather than measured:
/// the size of the grid and its bounds, and how many channels, rules and
/// initialisation ranges there are.
#[derive(Clone, Debug)]
pub struct SimulationConfig {
    pub grid_width: usize,
    pub grid_height: usize,
    pub grid_width_min: usize,
    pub grid_width_max: usize,
    pub grid_height_min: usize,
    pub grid_height_max: usize,
    pub num_traits: usize,
    /// Non-zero for every channel that the update touches.
    pub active_mask: Vec<u8>,
    pub initial_selected_trait: usize,
    /// The number of initialisation ranges.
    pub range_count: usize,
    /// The number of update rules.
    pub rule_count: usize,
    /// The window over which the channels are updated.
    pub neighborhood_traits_mask: Vec<Vec<u8>>,
    /// The window within which the agents move.
    pub neighborhood_mvt_mask: Vec<Vec<u8>>,
}

impl SimulationConfig {
    /// A channel that does not exist is flagged as active.
    pub open spec fn activates_beyond(&self) -> bool {
        exists|i: int| self.num_traits <= i < self.active_mask@.len() && self.active_mask@[i] != 0
    }

    /// What is wrong with the size of the grid, if anything.
    pub open spec fn grid_verdict(&self) -> Option<ConfigError> {
        if self.grid_width == 0 || self.grid_height == 0 {
            Some(ConfigError::ZeroSizedGrid)
        } else if self.grid_width < self.grid_width_min || self.grid_width > self.grid_width_max {
            Some(ConfigError::GridWidthOutOfBounds)
        } else if self.grid_height < self.grid_height_min || self.grid_height > self.grid_height_max {
            Some(ConfigError::GridHeightOutOfBounds)
        } else {
            None
        }
    }

    /// What is wrong with the number of channels, if anything.
    pub open spec fn num_traits_verdict(&self) -> Option<ConfigError> {
        if self.num_traits == 0 {
            Some(ConfigError::NoTraits)
        } else {
            None
        }
    }

    /// What is wrong with the settings per channel, if anything.
    pub open spec fn traits_verdict(&self) -> Option<ConfigError> {
        if self.active_mask@.len() == 0 {
            Some(ConfigError::EmptyActiveMask)
        } else if self.activates_beyond() {
            Some(ConfigError::ActiveTraitOutOfBounds)
        } else if self.range_count == 0 {
            Some(ConfigError::NoRanges)
        } else if self.rule_count == 0 {
            Some(ConfigError::NoRules)
        } else if self.initial_selected_trait >= self.num_traits {
            Some(ConfigError::SelectedTraitOutOfBounds)
        } else if self.range_count != self.num_traits || self.rule_count != self.num_traits
            || self.active_mask@.len() < self.num_traits {
            Some(ConfigError::ChannelCountMismatch)
        } else {
            None
        }
    }

    /// What is wrong with the two masks, if anything: a mask is empty
    /// when it has no set entry, and out of shape when its rows differ in
    /// length.
    pub open spec fn masks_verdict(&self) -> Option<ConfigError> {
        if !mask_has_entry(self.neighborhood_traits_mask@) || !mask_has_entry(self.neighborhood_mvt_mask@) {
            Some(ConfigError::EmptyMask)
        } else if !mask_rectangular(self.neighborhood_traits_mask@) || !mask_rectangular(
            self.neighborhood_mvt_mask@,
        ) {
            Some(ConfigError::MaskShapeMismatch)
        } else {
            None
        }
    }

    /// The first thing that is wrong with the parameters, if anything: the
    /// grid comes first, then the number of channels, then the settings per
    /// channel, then the masks.
    pub open spec fn verdict(&self) -> Option<ConfigError> {
        if self.grid_verdict().is_some() {
            self.grid_verdict()
        } else if self.num_traits_verdict().is_some() {
            self.num_traits_verdict()
        } else if self.traits_verdict().is_some() {
            self.traits_verdict()
        } else {
            self.masks_verdict()
        }
    }

    /// Nothing of what makes a configuration unusable is the case where
    /// the verdict is clear: the grid has cells, both masks have a set
    /// entry, and there are as many ranges and rules as channels.
    pub proof fn lemma_clear_verdict(&self)
        requires
            self.verdict().is_none(),
        ensures
            self.grid_width > 0,
            self.grid_height > 0,
            self.num_traits > 0,
            mask_has_entry(self.neighborhood_traits_mask@),
            mask_has_entry(self.neighborhood_mvt_mask@),
            self.range_count == self.num_traits,
            self.rule_count == self.num_traits,
            self.active_mask@.len() >= self.num_traits,
            self.initial_selected_trait < self.num_traits,
    {
    }

    /// What `Ok` and `Err` stand for a verdict.
    pub open spec fn as_result(verdict: Option<ConfigError>) -> Result<(), ConfigError> {
        match verdict {
            Some(error) => Err(error),
            None => Ok(()),
        }
    }

    /// Checks the size of the grid: it has cells, and its width and height
    /// lie within their bounds.
    pub fn check_grid(&self) -> (result: Result<(), ConfigError>)
        ensures
            result == Self::as_result(self.grid_verdict()),
    {
        if self.grid_width == 0 || self.grid_height == 0 {
            return Err(ConfigError::ZeroSizedGrid);
        }
        if self.grid_width < self.grid_width_min || self.grid_width > self.grid_width_max {
            return Err(ConfigError::GridWidthOutOfBounds);
        }
        if self.grid_height < self.grid_height_min || self.grid_height > self.grid_height_max {
            return Err(ConfigError::GridHeightOutOfBounds);
        }
        Ok(())
    }

    /// Checks that there is a channel.
    pub fn check_num_traits(&self) -> (result: Result<(), ConfigError>)
        ensures
            result == Self::as_result(self.num_traits_verdict()),
    {
        if self.num_traits == 0 {
            return Err(ConfigError::NoTraits);
        }
        Ok(())
    }

    /// Checks the settings per channel: the activity flags, the ranges and
    /// the rules are there, no flag activates a channel that does not
    /// exist, the selected channel exists, and the counts match.
    pub fn check_traits(&self) -> (result: Result<(), ConfigError>)
        ensures
            result == Self::as_result(self.traits_verdict()),
    {
        if self.active_mask.len() == 0 {
            return Err(ConfigError::EmptyActiveMask);
        }
        let mut i: usize = self.num_traits;
        while i < self.active_mask.len()
            invariant
                self.num_traits <= i,
                forall|k: int| self.num_traits <= k < i && k < self.active_mask@.len() ==> self.active_mask@[k] == 0,
            decreases self.active_mask@.len() - i,
        {
            if self.active_mask[i] != 0 {
                return Err(ConfigError::ActiveTraitOutOfBounds);
            }
            i += 1;
        }
        if self.range_count == 0 {
            return Err(ConfigError::NoRanges);
        }
        if self.rule_count == 0 {
            return Err(ConfigError::NoRules);
        }
        if self.initial_selected_trait >= self.num_traits {
            return Err(ConfigError::SelectedTraitOutOfBounds);
        }
        if self.range_count != self.num_traits || self.rule_count != self.num_traits || self.active_mask.len()
            < self.num_traits {
            return Err(ConfigError::ChannelCountMismatch);
        }
        Ok(())
    }

    /// Checks the two masks: each has a set entry, and each has rows of
    /// one length.
    pub fn check_masks(&self) -> (result: Result<(), ConfigError>)
        ensures
            result == Self::as_result(self.masks_verdict()),
    {
        if !has_set_entry(&self.neighborhood_traits_mask) || !has_set_entry(&self.neighborhood_mvt_mask) {
            return Err(ConfigError::EmptyMask);
        }
        if !is_rectangular(&self.neighborhood_traits_mask) || !is_rectangular(&self.neighborhood_mvt_mask) {
            return Err(ConfigError::MaskShapeMismatch);
        }
        Ok(())
    }

    /// Checks all of the parameters and names the first thing that is
    /// wrong.
    pub fn validate(&self) -> (result: Result<(), ConfigError>)
        ensures
            result == Self::as_result(self.verdict()),
    {
        match self.check_grid() {
            Err(error) => {
                return Err(error);
            },
            Ok(_) => {},
        }
        match self.check_num_traits() {
            Err(error) => {
                return Err(error);
            },
            Ok(_) => {},
        }
        match self.check_traits() {
            Err(error) => {
                return Err(error);
            },
            Ok(_) => {},
        }
        self.check_masks()
    }
}

} // verus!
