//! Puts the addresses that systemd-resolved resolves for chosen domain names
//! into nftables sets.
//!
//! `config` holds the rule sets (the names to watch and the sets they feed),
//! `varlink_monitor` turns the query results pushed by systemd-resolved into
//! resolved names and addresses, `dispatch` decides which requests a resolved
//! name calls for, and `nft` builds those requests and reads the kernel's
//! replies. `domain` carries domain names and the pattern trie as bytes.

pub mod error;
pub mod domain;
pub mod config;
pub mod nft;
pub mod varlink_monitor;
pub mod dispatch;
