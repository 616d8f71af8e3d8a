//! Reconstruction of positioned text tokens into an editable, layout-preserving
//! text representation.
//!
//! A page of extracted text arrives as a set of tokens, each carrying a
//! fixed-point position and extent in the source coordinate space (origin at
//! the top left, vertical coordinates growing downward). The library groups
//! the tokens into lines by vertical proximity, classifies runs of lines as
//! paragraph, table or multi-column material, quantizes the tokens onto a
//! fixed-resolution character grid, renders flowed linear text as an
//! alternative, converts between grid and linear text in both directions,
//! extracts bounded viewport windows, and fingerprints text to gate
//! recomputation.
//!
//! Coordinates are fixed-point integers in tenths of a source unit, so the
//! value `1608` stands for the source coordinate `160.8`.

pub mod config;
pub mod token;
pub mod group;
pub mod classify;
pub mod grid;
pub mod bridge;
pub mod fingerprint;
pub mod flow;
pub mod page;
pub mod edit;
pub mod widths;
