//! A replicated text sequence engine: a text document that independent
//! actors may edit concurrently through position-based insert and delete
//! operations, with a deterministic linear view reconstructed from
//! identifier order.
//!
//! Each inserted character receives a globally unique, totally ordered
//! position identifier; deletion marks elements with a tombstone rather
//! than removing them, so that other actors' positions stay valid.

pub mod doc;
pub mod ident;
pub mod render;
