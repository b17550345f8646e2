//! Structural comparison of two UI screenshots: verified geometry, masks, pixel mappings,
//! proposal bookkeeping, residual classification decisions, and annotation rendering.

pub mod alignment;
pub mod annotate;
pub mod artifacts;
pub mod classify;
pub mod compare;
pub mod font;
pub mod geometry;
pub mod local;
pub mod mapping;
pub mod mask;
pub mod matching;
pub mod metrics;
pub mod movement;
pub mod ordering;
pub mod proposals;
pub mod raster;
pub mod render;
pub mod report;
pub mod summary;
pub mod residual;
pub mod text;
pub mod uri;
