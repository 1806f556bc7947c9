//! Bit-addressed views over buffers of unsigned integer elements.
//!
//! A [`BitSlice`](slice::BitSlice) names a run of bits inside a buffer of `u8`,
//! `u16`, `u32` or `u64` elements; a [`Cursor`](cursor::Cursor) decides which
//! physical bit of an element each position stands for. Every operation takes
//! the buffer it works on and states, over the buffer read as one sequence of
//! bits, what it returns and what it leaves alone.

pub mod arith;
pub mod bits;
pub mod count;
pub mod cursor;
pub mod domain;
pub mod error;
pub mod guard;
pub mod logic;
pub mod model;
pub mod nucleus;
pub mod number;
pub mod parts;
pub mod pointer;
pub mod range;
pub mod shift;
pub mod slice;
pub mod store;

pub use crate::cursor::{BigEndian, Cursor, LittleEndian, Local};
pub use crate::domain::BitDomain;
pub use crate::error::BitError;
pub use crate::guard::BitGuard;
pub use crate::nucleus::BitAccess;
pub use crate::pointer::BitPtr;
pub use crate::range::BitRange;
pub use crate::slice::BitSlice;
pub use crate::store::{BitStore, Sealed};
