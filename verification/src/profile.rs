//! Pipeline shape: block-assembly profiles per protocol hint and the
//! choice between the block and the sliding-window pipeline.

use crate::timing::{duration_from_millis, duration_nanos, NANOS_PER_MILLI};
use std::time::Duration;
use vstd::prelude::*;

verus! {

/// The application traffic class the tunnel is tuned for.
#[derive(Clone, Copy, Debug, PartialEq, Eq)]
pub enum ProtocolHint {
    Realtime,
    Bulk,
    Auto,
}

/// The forward-error-correction code family.
#[derive(Clone, Copy, Debug, PartialEq, Eq)]
pub enum FecBackend {
    RaptorQ,
    ReedSolomon,
    Rlc,
}

impl FecBackend {
    /// Streaming-native codes (RLC) can drive the sliding-window pipeline.
    pub fn is_streaming(&self) -> (r: bool)
        ensures
            r == (*self is Rlc),
    {
        match self {
            FecBackend::Rlc => true,
            _ => false,
        }
    }
}

/// Block assembly profile derived from the protocol hint.
pub struct BlockProfile {
    pub max_block_size: usize,
    pub flush_timeout: Duration,
    pub symbol_size: u16,
}

/// The `(max_block_size, flush_timeout_ms, symbol_size)` of a hint.
pub open spec fn profile_of(hint: ProtocolHint) -> (int, int, int) {
    match hint {
        ProtocolHint::Realtime => (4096int, 2int, 512int),
        ProtocolHint::Bulk => (65536int, 5int, 1200int),
        ProtocolHint::Auto => (16384int, 10int, 1200int),
    }
}

impl BlockProfile {
    /// Realtime: 4 KB blocks, 2 ms flush, 512-byte symbols; Bulk: 64 KB,
    /// 5 ms, 1200; Auto: 16 KB, 10 ms, 1200.
    pub fn from_hint(hint: ProtocolHint) -> (p: Self)
        ensures
            p.max_block_size == profile_of(hint).0,
            duration_nanos(p.flush_timeout) == profile_of(hint).1 * NANOS_PER_MILLI,
            p.symbol_size == profile_of(hint).2,
    {
        match hint {
            ProtocolHint::Realtime => BlockProfile {
                max_block_size: 4 * 1024,
                flush_timeout: duration_from_millis(2),
                symbol_size: 512,
            },
            ProtocolHint::Bulk => BlockProfile {
                max_block_size: 64 * 1024,
                flush_timeout: duration_from_millis(5),
                symbol_size: 1200,
            },
            ProtocolHint::Auto => BlockProfile {
                max_block_size: 16 * 1024,
                flush_timeout: duration_from_millis(10),
                symbol_size: 1200,
            },
        }
    }
}

/// Realtime rides the window pipeline, and `window_reliable` opts Bulk/Auto
/// onto it, whenever the code is streaming-native.
pub fn is_window_mode(hint: ProtocolHint, backend: FecBackend, window_reliable: bool) -> (r: bool)
    ensures
        r == ((hint is Realtime || window_reliable) && backend is Rlc),
{
    let realtime = match hint {
        ProtocolHint::Realtime => true,
        _ => false,
    };
    (realtime || window_reliable) && backend.is_streaming()
}

} // verus!
