//! Verified core of tree-style support generation for FDM printing.
//!
//! The integer and structural logic of the support pipeline lives here:
//! contact-point selection, branch smoothing, interface-layer planning,
//! per-layer output assembly, mesh index validation and the flattening of
//! polygons for the C boundary. Quantities that the pipeline carries but never
//! computes with (heights, angles, areas) are a type parameter `S` of the
//! data types, so the verified code is independent of how they are represented.

pub mod branch_generation;
pub mod circle;
pub mod collision;
pub mod config;
pub mod ffi;
pub mod interface_layers;
pub mod mesh;
pub mod overhang_detection;
pub mod placement;
pub mod utils;
