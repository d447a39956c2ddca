use vstd::prelude::*;

verus! {

/// The configuration surface of the pipeline.
#[derive(Clone, Debug)]
pub struct GeyserPluginCosConfig {
    /// The folder where block information is saved.
    pub workspace: String,
    /// The number of consecutive slots in each storage range.
    pub slot_range: u64,
    /// How far into a range the commit trigger slot lies.
    pub commit_slot_delay: u64,
    /// The size, in mebibytes, at which a log file rotates.
    pub max_file_size_mb: u64,
}

} // verus!
