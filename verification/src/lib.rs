//! Maps from IP prefixes to autonomous systems, and how a quorum of participants
//! agrees on one.
//!
//! A map ([`trie::ASMap`]) is a binary trie. It can be written as a list of
//! prefixes ([`entries`], [`load`]) or as a compact program of bits
//! ([`binary`]). Participants publish what they believe a map to be as claims
//! ([`claim`]); an engine ([`engine`]) validates them by fixed rules ([`rules`]),
//! tallies their votes ([`votes`]) and makes the map on which enough of them
//! agree ([`consensus`]). What a round of claims comes to is stated in
//! [`agreement`]. Maps can be derived from routing dumps ([`mrt`],
//! [`bottleneck`]), compared ([`diff`], [`report`]) and shared by nodes ([`node`]).

pub mod addr;
pub mod agreement;
pub mod binary;
pub mod binnode;
pub mod bottleneck;
pub mod claim;
pub mod coder;
pub mod config;
pub mod consensus;
pub mod diff;
pub mod engine;
pub mod entries;
pub mod load;
pub mod mrt;
pub mod net;
pub mod node;
pub mod nostr;
pub mod outside;
pub mod plan;
pub mod prefix;
pub mod report;
pub mod rules;
pub mod sort;
pub mod testgen;
pub mod text;
pub mod trie;
pub mod votes;

pub use crate::addr::IpAddr;
pub use crate::claim::{AsmapClaim, AsmapEntry};
pub use crate::config::IPFS_BOOTSTRAP_NODES;
pub use crate::consensus::{ClaimObservation, ConsensusArtifact, ConsensusEntry};
pub use crate::engine::QuorumEngine;
pub use crate::load::{load_file, save_binary, save_text, LoadError, SaveError};
pub use crate::net::{
    bits_to_network, ip_to_bits, network_address_count, parse_network_prefix, NetworkCountError,
    ParseNetworkError,
};
pub use crate::rules::{
    ClaimLimits, ASN_MAX, ASN_MIN, CLAIM_HASH_LEN, EPOCH_ABSOLUTE_MAX, IPV4_MAPPED_PREFIX_BITS,
    IPV4_MAPPED_RANGE, MAX_CLAIM_BYTES, MAX_CLAIM_ENTRIES, MAX_EPOCH_SKEW, MAX_PREFIX_LEN,
    MAX_REJECTION_OBSERVATIONS, MAX_SENDERS, MAX_SENDER_ID_LEN, MIN_CLAIM_ENTRIES,
};
pub use crate::trie::{ASMap, ASNDiff, ASNEntry};
