//! # stepq
//!
//! Query, inspect and reshape STEP (ISO 10303-21) files.
//!
//! `stepq` works on the entity graph of a Part 21 file. It never evaluates
//! geometry: everything it does is an operation over the original entity
//! instances, which are preserved byte for byte.
//!
//! Every operation is built from the same steps: [`p21::parse`] the bytes
//! into an [`Exchange`](p21::Exchange), index its references with a
//! [`model::Graph`], ask questions through the record and parameter views,
//! and write a selection back out with a [`p21::Writer`].
pub mod error;
pub mod lint;
pub mod express;
pub mod text;
pub mod p21;
pub mod model;
pub mod strip;
pub mod assemble;
pub mod info;
pub mod table;
pub mod diff;
pub mod props;
pub mod pmi;

pub use error::{Error, Result};
