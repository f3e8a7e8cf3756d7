pub mod p2p;
pub mod sessions;
