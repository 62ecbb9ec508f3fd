use std::io::{Error, ErrorKind};

use screen_cap::frame::{last_frame_error, FrameError, FrameGuard};
use screen_cap::threading::{after_controls, control_step, LoopAction, WorkerControl};

#[test]
fn would_block_is_a_skipped_frame() {
    let e = FrameError::from_io_error(Error::new(ErrorKind::WouldBlock, "later"));
    assert!(matches!(e, FrameError::Skipped));
    let e = FrameError::from_io_error(Error::new(ErrorKind::Other, "broken"));
    match e {
        FrameError::Error(inner) => assert_eq!(inner.kind(), ErrorKind::Other),
        FrameError::Skipped => panic!("a real error was taken for a skipped frame"),
    }
}

#[test]
fn last_real_error_wins() {
    let results = vec![
        Err(FrameError::Error(Error::new(ErrorKind::Other, "first"))),
        Ok(()),
        Err(FrameError::Error(Error::new(ErrorKind::NotFound, "second"))),
        Err(FrameError::Skipped),
    ];
    match last_frame_error(results) {
        Some(FrameError::Error(e)) => assert_eq!(e.kind(), ErrorKind::NotFound),
        _ => panic!("expected the second error"),
    }
    assert!(last_frame_error(vec![Ok(()), Err(FrameError::Skipped)]).is_none());
}

#[test]
fn frame_guard_derefs_to_bytes() {
    let frame = vec![1u8, 2, 3];
    let guard = FrameGuard::new(&frame);
    assert_eq!(&*guard, &[1, 2, 3]);
    assert_eq!(guard.len(), 3);
}

#[test]
fn control_messages() {
    assert_eq!(control_step(false, WorkerControl::StartLoop), LoopAction::Run);
    assert_eq!(control_step(false, WorkerControl::Join), LoopAction::Exit);
    assert_eq!(control_step(true, WorkerControl::Join), LoopAction::Exit);
    assert_eq!(after_controls(&vec![]), LoopAction::Run);
    assert_eq!(after_controls(&vec![WorkerControl::Join]), LoopAction::Exit);
}
