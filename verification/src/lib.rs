//! A BitTorrent client's protocol core: the Bencode codec, the torrent
//! descriptor, the tracker announce protocol and the peer wire protocol,
//! each stated over a mathematical model and proved against it.

pub mod bencode;
pub mod canonical;
pub mod descriptor;
pub mod error;
pub mod peer;
pub mod torrent;
pub mod tracker;
pub mod tsunami;
#[allow(non_snake_case)]
pub mod torrent_ast;
pub mod utils;
pub mod wrappers;
