//! A verified static file server core: path resolution, media types, content
//! negotiation, validators, ranges, response planning, directory listings,
//! configuration, and the request state machine that ties them together.

pub mod bootstrap;
pub mod config;
pub mod document;
pub mod encoding;
pub mod error;
pub mod eventbridge;
pub mod filter;
pub mod fixtures;
pub mod harness;
pub mod io;
pub mod json;
pub mod listing;
pub mod message;
pub mod mime;
pub mod path;
pub mod range;
pub mod response_plan;
pub mod stream;
pub mod tags;
pub mod text;
pub mod validators;
