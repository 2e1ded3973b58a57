//! Screen streaming core: frame codecs, the wire protocol between the
//! capture server and the viewer, pixel conversion and the drawing
//! primitives of the viewer's screen buffer.

pub mod bytes;
pub mod capture;
pub mod color;
pub mod compression;
pub mod config;
pub mod connection;
pub mod connection_handler;
pub mod performance_track;
pub mod screen;
pub mod text;
pub mod windows;

pub use color::Color;
