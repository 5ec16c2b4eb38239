//! A freestanding password-hashing shim: a fixed-capacity arena allocator,
//! a panic bridge that renders fatal conditions as diagnostic messages for a
//! host callback, and `hash` / `verify` operations over raw byte buffers that
//! delegate the bcrypt algorithm itself to the `bcrypt` crate.

pub mod arena;
pub mod bridge;
pub mod hashing;
