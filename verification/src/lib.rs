//! Core logic of the MusicStudio desktop backend: sidecar process
//! bookkeeping, model registry, screen-recording and render planning.

pub mod text;
pub mod paths;
pub mod progress;
pub mod recording;
pub mod sidecar;
pub mod tools;
pub mod media;
pub mod mlt;
pub mod models;
