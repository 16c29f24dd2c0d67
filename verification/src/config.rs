//! Engine configuration: read-only for the lifetime of a compressor.

use vstd::prelude::*;

verus! {

/// Static configuration for the engine. `dedup_threshold_permille` is the
/// similarity threshold in thousandths (accepted but unused by the
/// exact-match dedup codec); `max_input_size` is a documented ceiling that
/// the engine does not enforce before dispatch.
#[derive(Debug, Clone)]
pub struct CompressionConfig {
    pub ryzanstein_url: String,
    pub lz4_block_size: usize,
    pub dedup_threshold_permille: u32,
    pub max_input_size: usize,
    pub enable_semantic: bool,
}

impl Default for CompressionConfig {
    /// The stock configuration: 64 KiB blocks, a 0.95 similarity
    /// threshold, a 100 MiB input ceiling, semantic features on.
    fn default() -> (r: Self)
        ensures
            r.ryzanstein_url@ == "http://localhost:8000"@,
            r.lz4_block_size == 65536,
            r.dedup_threshold_permille == 950,
            r.max_input_size == 104857600,
            r.enable_semantic == true,
    {
        CompressionConfig {
            ryzanstein_url: "http://localhost:8000".to_string(),
            lz4_block_size: 65536,
            dedup_threshold_permille: 950,
            max_input_size: 104857600,
            enable_semantic: true,
        }
    }
}

} // verus!
