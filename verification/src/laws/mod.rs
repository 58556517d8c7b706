//! What holds of every emission.
pub mod acks;
pub mod budget;
pub mod calls;
pub mod data;
pub mod delays;
pub mod frames;
pub mod induction;
pub mod keys;
pub mod order;
pub mod packets;
pub mod packing;
pub mod queues;
pub mod sync;
pub mod trace;
