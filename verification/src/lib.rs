//! Capture-session lifecycle and frame-delivery pipeline.
//!
//! The library verifies the core of a screen-mirroring system: converting
//! row-padded raw platform buffers into tightly packed frames, throttling
//! frame emission to a target rate, and the supervisor that tracks capture
//! sessions per window and routes frames for the focused window to a viewer.
//! Channel plumbing, threads and the platform capture facility live in the
//! surrounding application; this crate holds every decision they act on.

pub mod driver;
pub mod window_capture;
