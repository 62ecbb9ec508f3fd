//! Chunked byte buffers with stable identifiers, and the buffering and
//! dispatch policies of a screen-recording pipeline built on them.

pub mod contiguous;
pub mod frame;
pub mod record;
pub mod dispatch;
pub mod threading;
