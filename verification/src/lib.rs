//! Snapple, a game clip recorder: the logic of the recorder, verified.
//!
//! The library decides and computes; the program around it captures frames
//! and sound, runs ffmpeg, and watches processes and windows.

pub mod audio;
pub mod buffer;
pub mod capture;
pub mod config;
pub mod downsample;
pub mod encoder;
pub mod games;
pub mod icon;
pub mod recorder;
pub mod scale;
pub mod sound;
pub mod text;
