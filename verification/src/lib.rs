//! Pure decision laws of the RaptorPath multipath FEC tunnel data path:
//! recovery clocks, SACK/gap encodings, retention-store accounting and the
//! delivery-attribution cursor, each with the contract it meets.

pub mod collections;
pub mod patience;
pub mod runs;
pub mod sack;
pub mod ledger;
pub mod release;
pub mod placement;
pub mod timing;
pub mod deficit;
pub mod feed;
pub mod loss;
pub mod profile;
pub mod netmask;
pub mod retention;
pub mod wire;
