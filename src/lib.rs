//! A reputation ledger for remote peers: a quality ladder per peer, a
//! throttled staleness check, and a tiered random selection of the peers to
//! contact next.

mod peer_list;
mod quality;
mod sampling;
mod time;

pub use peer_list::{NodeId, PeerList};
pub use quality::{PeerQuality, PeersStatus, Verdict};
pub use time::{TimeDiff, Timestamp};
