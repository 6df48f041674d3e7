pub mod bencode;
pub mod field;
pub mod file;
pub mod hash;
pub mod msg;
pub mod session;
pub mod swarm;
pub mod torrent;
pub mod tracker;
