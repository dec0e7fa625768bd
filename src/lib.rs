//! Verified protocol cores for a small family of message-passing node programs.
pub mod broadcast;
pub mod counter;
pub mod log;
pub mod replica;
pub mod txn;
