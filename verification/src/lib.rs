//! Sorting of the attributes on a `#[bitsize]` item into those that must be
//! applied before the item's fields are compressed into one value and those
//! that are applied after.
//!
//! An item is handed in as plain values: its kind, and each attribute as a
//! path with what follows it as text. The work is done in four steps.
//! - [`parse::parse_attribute`] tells each attribute apart: a list of
//!   derives, the marker that only the compression itself may write, or
//!   anything else.
//! - [`split::validate`] holds the attributes against the rules on what may
//!   stand together.
//! - [`split::expand_attributes`] takes each list of derives apart into one
//!   `#[derive(..)]` for each derive.
//! - [`split::partition`] puts each attribute on its side of the
//!   compression.
//!
//! [`split_item_attributes`] does all four; [`split::split_item_places`] says
//! moreover where each attribute came from. What comes of attributes that
//! were told apart is stated by [`split::split`]; [`laws`] holds what follows
//! from that.
//!
//! The tokens of a `#[derive(..)]` are read by `syn`. Nothing is proved of
//! that reading, and next to nothing is taken on trust of it: what is stated
//! here holds whatever `syn` makes of the tokens.

pub mod attribute;
pub mod derive;
pub mod error;
pub mod laws;
pub mod parse;
pub mod path;
pub mod split;
pub mod text;

pub use crate::split::{split_item_attributes, SplitAttributes};
