//! The receiving end: decoding, judging and keeping what the gateway sends.

pub mod api;
pub mod archive;
pub mod dashboard;
pub mod decision;
pub mod encoding;
pub mod forecast;
pub mod history;
pub mod input;
pub mod labels;
pub mod meter;
pub mod quality;
pub mod transport;
