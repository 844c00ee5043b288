//! A small in-process time-series store: samples are addressed by tag sets,
//! kept in slabs, and read back as time-sorted series. Tag sets have a
//! canonical identity, and tag expressions select tag sets.
pub mod db;
pub mod grammar;
pub mod identity;
pub mod order;
pub mod series;
pub mod tags;
pub mod text;
pub mod writing;

pub use crate::db::{Config, Slab, TinyTSDB, DB};
pub use crate::tags::{
    Equality, EqualityOp, Logical, LogicalOp, ParseError, TagSet, TagsParser,
};
