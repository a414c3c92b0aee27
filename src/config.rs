//! Top-level limits of the engine.
use vstd::prelude::*;

verus! {

/// Timeouts in seconds and caps on fragments and flows.
#[derive(Debug, Clone, Copy, PartialEq, Eq, Structural)]
pub struct Config {
    pub defrag_timeout: u64,
    pub stream_timeout: u64,
    pub max_fragments: usize,
    pub max_streams: usize,
}

impl Default for Config {
    fn default() -> (r: Self)
        ensures
            r.defrag_timeout == 30,
            r.stream_timeout == 300,
            r.max_fragments == 1024,
            r.max_streams == 10000,
    {
        Config { defrag_timeout: 30, stream_timeout: 300, max_fragments: 1024, max_streams: 10000 }
    }
}

} // verus!
