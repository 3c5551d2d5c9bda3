use vstd::prelude::*;

verus! {

/// Why a set of construction parameters was turned down.
#[derive(Clone, Copy, Debug, PartialEq, Eq, Structural)]
pub enum ConfigError {
    /// The grid has no rows or no columns.
    ZeroSizedGrid,
    /// The grid has more cells than the machine can index or a bid can
    /// name.
    GridTooLarge,
    /// The grid's width lies outside the configured bounds.
    GridWidthOutOfBounds,
    /// The grid's height lies outside the configured bounds.
    GridHeightOutOfBounds,
    /// The neighbourhood mask is empty: it has no set entry, or the window
    /// has no rows or no columns.
    EmptyMask,
    /// The window has more rows or columns than a signed offset can span.
    WindowTooLarge,
    /// The mask's rows and columns are not those of the window.
    MaskShapeMismatch,
    /// The window's centre lies outside the window.
    CenterOutOfWindow,
    /// There is no attribute channel.
    NoTraits,
    /// The list of activity flags is empty.
    EmptyActiveMask,
    /// A channel that does not exist is flagged as active.
    ActiveTraitOutOfBounds,
    /// There is no initialisation range.
    NoRanges,
    /// There is no update rule.
    NoRules,
    /// The channel selected at the start does not exist.
    SelectedTraitOutOfBounds,
    /// The rules, the ranges or the activity flags do not match the channels
    /// in number.
    ChannelCountMismatch,
    /// An array of a grid does not have one entry per cell, or the grid has
    /// no cells or too many.
    MalformedGrid,
    /// A window's mask, size and centre do not fit together.
    MalformedWindow,
    /// The two buffers of a tick differ in size or in channels.
    BufferShapeMismatch,
}

impl ConfigError {
    /// The text shown for this error.
    pub open spec fn message_spec(&self) -> Seq<char> {
        match self {
            ConfigError::ZeroSizedGrid => "grid width and height must be > 0"@,
            ConfigError::GridTooLarge => "grid has too many cells"@,
            ConfigError::GridWidthOutOfBounds => "grid_width is out of bounds"@,
            ConfigError::GridHeightOutOfBounds => "grid_height is out of bounds"@,
            ConfigError::EmptyMask => "neighborhood mask must not be empty"@,
            ConfigError::WindowTooLarge => "neighborhood window is too large"@,
            ConfigError::MaskShapeMismatch => "neighborhood mask does not match its window"@,
            ConfigError::CenterOutOfWindow => "neighborhood center is out of bounds"@,
            ConfigError::NoTraits => "num_traits must be > 0"@,
            ConfigError::EmptyActiveMask => "active_mask must not be empty"@,
            ConfigError::ActiveTraitOutOfBounds => "active_mask has active traits indexes beyond 'num_traits' (only the indexes of active_mask from 0 to 'num_traits' can be used)"@,
            ConfigError::NoRanges => "initialisation_ranges must not be empty"@,
            ConfigError::NoRules => "rules must not be empty"@,
            ConfigError::SelectedTraitOutOfBounds => "initial_selected_trait is out of bounds"@,
            ConfigError::ChannelCountMismatch => "rules, initialisation_ranges and active_mask must cover 'num_traits' traits"@,
            ConfigError::MalformedGrid => "grid arrays do not match the grid's size"@,
            ConfigError::MalformedWindow => "neighborhood mask, size and center do not fit together"@,
            ConfigError::BufferShapeMismatch => "the two grid buffers differ in shape"@,
        }
    }

    /// The text shown for this error.
    pub fn message(&self) -> (text: &'static str)
        ensures
            text@ == self.message_spec(),
    {
        match self {
            ConfigError::ZeroSizedGrid => "grid width and height must be > 0",
            ConfigError::GridTooLarge => "grid has too many cells",
            ConfigError::GridWidthOutOfBounds => "grid_width is out of bounds",
            ConfigError::GridHeightOutOfBounds => "grid_height is out of bounds",
            ConfigError::EmptyMask => "neighborhood mask must not be empty",
            ConfigError::WindowTooLarge => "neighborhood window is too large",
            ConfigError::MaskShapeMismatch => "neighborhood mask does not match its window",
            ConfigError::CenterOutOfWindow => "neighborhood center is out of bounds",
            ConfigError::NoTraits => "num_traits must be > 0",
            ConfigError::EmptyActiveMask => "active_mask must not be empty",
            ConfigError::ActiveTraitOutOfBounds => "active_mask has active traits indexes beyond 'num_traits' (only the indexes of active_mask from 0 to 'num_traits' can be used)",
            ConfigError::NoRanges => "initialisation_ranges must not be empty",
            ConfigError::NoRules => "rules must not be empty",
            ConfigError::SelectedTraitOutOfBounds => "initial_selected_trait is out of bounds",
            ConfigError::ChannelCountMismatch => "rules, initialisation_ranges and active_mask must cover 'num_traits' traits",
            ConfigError::MalformedGrid => "grid arrays do not match the grid's size",
            ConfigError::MalformedWindow => "neighborhood mask, size and center do not fit together",
            ConfigError::BufferShapeMismatch => "the two grid buffers differ in shape",
        }
    }
}

} // verus!
