//! Frames handed from the capture side to the encoder, and the errors that
//! come with them.

use std::ops::Deref;
use vstd::prelude::*;

verus! {

/// Turns "something that derefs into something that derefs into `[u8]`"
/// (a lock guard over a `Vec<u8>`, say) into something that derefs into
/// `[u8]`.
#[verifier::reject_recursive_types(U)]
pub struct FrameGuard<T, U> where T: Deref<Target = U>, U: Deref<Target = [u8]> {
    guard: T,
}

impl<T, U> FrameGuard<T, U> where T: Deref<Target = U>, U: Deref<Target = [u8]> {
    /// The guard that is wrapped.
    pub closed spec fn inner(&self) -> T {
        self.guard
    }

    #[inline]
    pub fn new(guard: T) -> (r: Self)
        ensures
            r.inner() == guard,
    {
        FrameGuard { guard }
    }
}

impl<T, U> Deref for FrameGuard<T, U> where T: Deref<Target = U>, U: Deref<Target = [u8]> {
    type Target = [u8];

    #[inline]
    fn deref(&self) -> &[u8] {
        &self.guard
    }
}

/// Why no frame came from the display: none was ready yet, or grabbing it
/// failed.
#[derive(Debug)]
pub enum FrameError {
    Skipped,
    Error(std::io::Error),
}

/// Whether the kind of `e` is "would block".
pub uninterp spec fn would_block_of(e: std::io::Error) -> bool;

/// Relies on `std::io::Error::kind`: whether the error says that the call
/// would have blocked. The kind depends on the error value alone.
#[verifier::external_body]
fn is_would_block(e: &std::io::Error) -> (r: bool)
    ensures
        r == would_block_of(*e),
{
    matches!(e.kind(), std::io::ErrorKind::WouldBlock)
}

impl FrameError {
    /// Classifies an error of the display grab: "would block" means that no
    /// new frame was ready; any other error is kept.
    pub fn from_io_error(value: std::io::Error) -> (r: FrameError)
        ensures
            r is Skipped <==> would_block_of(value),
            r matches FrameError::Error(e) ==> e == value,
    {
        if is_would_block(&value) {
            FrameError::Skipped
        } else {
            FrameError::Error(value)
        }
    }
}

/// The last error among `results` that is not a skipped frame, if any.
pub open spec fn last_error(results: Seq<Result<(), FrameError>>) -> Option<std::io::Error>
    decreases results.len(),
{
    if results.len() == 0 {
        None
    } else {
        match results.last() {
            Err(FrameError::Error(e)) => Some(e),
            _ => last_error(results.drop_last()),
        }
    }
}

/// Goes through the capture results that queued up while a frame was read
/// and keeps the last real error: skipped frames and successes are dropped.
pub fn last_frame_error(results: Vec<Result<(), FrameError>>) -> (r: Option<FrameError>)
    ensures
        r is None <==> last_error(results@) is None,
        r matches Some(e) ==> e matches FrameError::Error(x) && last_error(results@) == Some(x),
{
    let ghost all = results@;
    let mut rest = results;
    while rest.len() > 0
        invariant
            last_error(all) == last_error(rest@),
            all == results@,
        decreases rest@.len(),
    {
        let ghost before = rest@;
        let item = rest.pop().unwrap();
        assert(before.drop_last() =~= rest@);
        assert(before.last() == item);
        match item {
            Err(FrameError::Error(e)) => {
                return Some(FrameError::Error(e));
            },
            _ => {},
        }
    }
    None
}

} // verus!
