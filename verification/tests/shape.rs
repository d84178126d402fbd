use raptorpath::netmask::prefix_mask;
use raptorpath::profile::{is_window_mode, BlockProfile, FecBackend, ProtocolHint};
use std::time::Duration;

#[test]
fn prefix_masks_set_the_top_prefix_bits() {
    assert_eq!(prefix_mask(24), 0xffff_ff00);
    assert_eq!(prefix_mask(16), 0xffff_0000);
    assert_eq!(prefix_mask(32), 0xffff_ffff);
    assert_eq!(prefix_mask(40), 0xffff_ffff);
    assert_eq!(prefix_mask(1), 0x8000_0000);
    assert_eq!(prefix_mask(31), 0xffff_fffe);
}

#[test]
fn block_profiles_follow_the_hint() {
    let rt = BlockProfile::from_hint(ProtocolHint::Realtime);
    assert_eq!((rt.max_block_size, rt.flush_timeout, rt.symbol_size), (4096, Duration::from_millis(2), 512));
    let bulk = BlockProfile::from_hint(ProtocolHint::Bulk);
    assert_eq!((bulk.max_block_size, bulk.flush_timeout, bulk.symbol_size), (65536, Duration::from_millis(5), 1200));
    let auto = BlockProfile::from_hint(ProtocolHint::Auto);
    assert_eq!((auto.max_block_size, auto.flush_timeout, auto.symbol_size), (16384, Duration::from_millis(10), 1200));
}

#[test]
fn only_streaming_codes_ride_the_window_pipeline() {
    assert!(is_window_mode(ProtocolHint::Realtime, FecBackend::Rlc, false));
    assert!(!is_window_mode(ProtocolHint::Bulk, FecBackend::Rlc, false));
    assert!(is_window_mode(ProtocolHint::Bulk, FecBackend::Rlc, true));
    assert!(is_window_mode(ProtocolHint::Auto, FecBackend::Rlc, true));
    assert!(!is_window_mode(ProtocolHint::Realtime, FecBackend::RaptorQ, true));
    assert!(!is_window_mode(ProtocolHint::Realtime, FecBackend::ReedSolomon, false));
    assert!(FecBackend::Rlc.is_streaming());
    assert!(!FecBackend::RaptorQ.is_streaming());
}
