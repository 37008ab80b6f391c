//! Core logic for streaming pixel frames to addressable-LED / DMX hardware:
//! geometric transpositions, brightness scaling, color correction, the
//! multi-input multiplexer's policy machine, and Art-Net packet framing.

pub mod artnet;
pub mod color;
pub mod geometry;
pub mod pipeline;
pub mod select;
