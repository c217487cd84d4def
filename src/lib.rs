//! A small podcast tracker: reads a feed into a `Podcast`, keeps a plain-text
//! record of the episodes already known, and finds the episodes that are new.
pub mod feed;
pub mod model;
pub mod reconcile;
pub mod store;
pub mod sync;
mod text;
