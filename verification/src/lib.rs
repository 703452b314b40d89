//! A BitTorrent client library: bencoding, the peer wire protocol, trackers,
//! piece selection and bookkeeping.
pub mod bencode_spec;
pub mod wire;
pub mod bencode;
pub mod pieces;
pub mod picker;
pub mod requests;
pub mod choke;
pub mod text;
pub mod verify;
pub mod metainfo;
pub mod peer;
pub mod peer_state;
pub mod keys;
pub mod extensions;
pub mod magnet;
pub mod number;
pub mod tracker;
pub mod tracker_udp;
pub mod tracker_set;
pub mod cli;
pub mod storage;
pub mod resume;
pub mod engine;
pub mod metadata;
pub mod dht;
pub mod random;
pub mod lenient;
pub mod peer_search;
