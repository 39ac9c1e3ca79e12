//! Farmer piece cache: the bookkeeping that merges several fixed-capacity
//! backends into one logical cache, and the decisions that keep it filled.
//!
//! Everything here works on plain values. Pieces are named by their piece
//! index; the record key that the network uses is a fixed encoding of it.
//! Reading and writing the backends, talking to the node and choosing which
//! pieces are wanted happen around this library.

pub mod backend;
pub mod init;
pub mod laws;
pub mod plot;
pub mod state;
pub mod worker;
