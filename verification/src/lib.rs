//! A codec for the RESP wire protocol, versions 2 and 3.
//!
//! You can read a RESP stream in several ways. Which one is appropriate depends
//! on your goals.
//!
//! # Frames
//!
//! With [`RespReader::frame`], you can read each individual frame from a RESP
//! stream and decide what to do with it.
//!
//! # Requests
//!
//! [`RespReader::requests`] hands out each component of a Redis-style request.
//!
//! # Values
//!
//! You can also use [`RespReader::value`], which returns a whole tree of frames
//! for arrays, maps, sets, etc.

pub mod builder;
pub mod config;
pub mod decode;
pub mod error;
pub mod frame;
pub mod octets;
pub mod pile;
pub mod primitive;
pub mod reader;
pub mod request;
pub mod resume;
pub mod roundtrip;
pub mod scan;
pub mod split;
pub mod splitter;
pub mod text;
pub mod value;
pub mod version;
pub mod writer;

pub use config::RespConfig;
pub use error::RespError;
pub use frame::RespFrame;
pub use primitive::RespPrimitive;
pub use reader::{RequestState, RespPoll, RespReader};
pub use request::RespRequest;
pub use scan::Scan;
pub use split::split;
pub use splitter::Splitter;
pub use value::{RespMap, RespSet, RespValue};
pub use version::RespVersion;
pub use writer::RespWriter;
