//! Private set intersection in the Ristretto group (the DDH protocol).
//!
//! Each party hashes its items to group elements, masks them with a secret
//! scalar, exchanges the masked elements, masks the other party's elements a
//! second time and counts the doubly masked elements that both sides hold.

pub mod group;
pub mod encoding_set;
pub mod points;
pub mod wire;
pub mod config;
pub mod protocol;
pub mod montgomery;
