//! The Xoodoo permutation and the Xoodyak duplex construction built on it.

pub mod bytes;
pub mod duplex;
pub mod laws;
pub mod permutation;
pub mod tag;
mod wipe;
pub mod xoodoo;
pub mod xoodyak;

pub use crate::tag::{Tag, TagMismatch, AUTH_TAG_BYTES};
pub use crate::xoodoo::Xoodoo;
pub use crate::xoodyak::Xoodyak;
