//! Hyge engine core logic: bindless slot bookkeeping, shadow-atlas packing,
//! the `.hyge-env` container, the Radiance RGBE decoder, render extraction
//! batching and the scene-document runtime rules.

pub mod bindless;
pub mod shadow;
pub mod ibl;
pub mod content;
pub mod rgbe;
pub mod extract;
pub mod scene;
pub mod prefab;
pub mod library;
pub mod cluster;
pub mod profiler;
pub mod viewport;
pub mod compare;
pub mod config;
