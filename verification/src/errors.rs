use vstd::prelude::*;

verus! {

/// Every failure the pipeline reports upward.
///
/// The unsupported-version variants are protocol errors, fatal for the one
/// notification that carried the legacy shape. `SkipIncompleteBlockRange` is
/// the non-fatal signal that a slot below the first valid slot was dropped.
/// `InternalError` carries a durability-affecting failure (log or storage
/// I/O, compression) that must never be silently ignored.
#[derive(Debug)]
pub enum GeyserPluginCosError {
    ReplicaBlockV001NotSupported,
    ReplicaTransactionV001NotSupported,
    ReplicaEntryV001NotSupported,
    SkipIncompleteBlockRange,
    InternalError { msg: String },
}

impl GeyserPluginCosError {
    /// A human-readable description of the failure.
    pub fn message(&self) -> String {
        match self {
            GeyserPluginCosError::ReplicaBlockV001NotSupported => String::from_str(
                "Replica block V0.0.1/v0.0.2 not supported anymore",
            ),
            GeyserPluginCosError::ReplicaTransactionV001NotSupported => String::from_str(
                "Replica transaction V0.0.1 not supported anymore",
            ),
            GeyserPluginCosError::ReplicaEntryV001NotSupported => String::from_str(
                "Replica entry V0.0.1 not supported anymore",
            ),
            GeyserPluginCosError::SkipIncompleteBlockRange => String::from_str(
                "Skipping incomplete block range",
            ),
            GeyserPluginCosError::InternalError { msg } => String::from_str(msg.as_str()),
        }
    }

    /// Whether this is the non-fatal below-first-valid-slot signal.
    pub fn is_skip_incomplete_block_range(&self) -> (r: bool)
        ensures
            r == (self is SkipIncompleteBlockRange),
    {
        match self {
            GeyserPluginCosError::SkipIncompleteBlockRange => true,
            _ => false,
        }
    }
}

} // verus!
