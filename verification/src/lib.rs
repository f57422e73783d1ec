//! PLTZ: a lossless codec that lays data out on virtual disk platters and
//! stores each track as a compact function descriptor where one fits.
#![allow(unused_imports)]

pub mod bytes;
pub mod platter;
pub mod columnar;
pub mod pattern;
pub mod render;
pub mod raw;
pub mod wire;
pub mod cross_track;
pub mod codec;
pub mod detect;
pub mod analyzer;
pub mod entry;
pub mod plan;
pub mod stored;
pub mod pltzfs;
pub mod encrypt;
pub mod settings;
pub mod search;
pub mod report;
pub mod video;
pub mod image;
pub mod audio;
