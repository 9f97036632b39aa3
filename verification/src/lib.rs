//! Streaming meta-index of HEALPix MOCs in Valkey.
//!
//! Given an alert's sky position, the index finds all currently active skymaps (GW localizations,
//! GRB error regions, neutrino tracks) that contain it. The MOCs themselves live outside the alert
//! database: only the inverted index (HEALPix cell to set of MOC ids) is kept hot in Valkey.
//!
//! The library holds the logic and performs no I/O. It plans the commands that register a MOC and
//! asks, step by step, for what a lookup needs to know; a program with a connection sends the
//! commands and answers. A sky position enters as the number of its HEALPix cell.
pub mod alert;
pub mod benchmark;
pub mod cache;
pub mod fetch;
pub mod fits;
pub mod fits_laws;
pub mod healpix;
pub mod history;
pub mod hpx_moc;
pub mod index;
pub mod keys;
pub mod listener;
pub mod lookup;
pub mod store;
pub mod text;

pub use hpx_moc::{degraded_cells_at_depth, is_in_moc, moc_from_fits_bytes, HpxMoc};
pub use index::{MocIndex, MocMetadata, DEFAULT_INDEX_DEPTH};
pub use lookup::MocHit;
