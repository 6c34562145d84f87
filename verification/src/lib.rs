pub mod symbols;
pub mod decimal;
pub mod order;
pub mod model;
pub mod bencode;
pub mod equality;
pub mod laws;
pub mod outside;
pub mod torrent;
pub mod tracker;
pub mod peer_connection;
