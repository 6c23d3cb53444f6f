//! Verified decision logic of a camera-monitoring service: webhook event
//! lifecycles, the event state machine, IoU object tracking, the rolling frame
//! buffer and the frame pipeline built on them, webhook target pairing,
//! encoding and transport checks, and the device registry.

pub mod text;
pub mod debounce;
pub mod webhook;
pub mod tracker;
pub mod event;
pub mod frame_buffer;
pub mod device;
pub mod audio;
pub mod media;
pub mod watcher;
