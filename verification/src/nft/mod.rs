//! Adding addresses to nftables sets over netlink.

pub mod error;
pub mod netlink;
pub mod set;
