//! Builder for BitTorrent v2 metainfo files: a verified two-level SHA-256
//! merkle checksum engine together with the canonical bencode serialization
//! of the resulting file tree.

pub mod bencode;
pub mod checksum;
pub mod metainfo;
