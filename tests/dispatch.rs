use std::collections::VecDeque;

use screen_cap::dispatch::{
    handle_recorder_message, recorder_iteration, releases_flush_waiters, FlushWaiters,
    RecorderMessage,
};
use screen_cap::record::EncodeStatus;

type Msg = RecorderMessage<&'static str, &'static str>;

fn msgs(v: Vec<Msg>) -> VecDeque<Msg> {
    v.into_iter().collect()
}

#[test]
fn flush_request_waits_for_next_flush() {
    let mut waiters = FlushWaiters::new();
    let pre: Result<EncodeStatus, ()> = Ok(EncodeStatus::PreBuffered);
    let w = recorder_iteration(&mut waiters, msgs(vec![RecorderMessage::WaitForNextFlush("a")]), &pre);
    assert!(w.flush.is_empty());
    let w = recorder_iteration(&mut waiters, msgs(vec![RecorderMessage::WaitForFrame("f")]), &pre);
    assert!(w.flush.is_empty());
    assert_eq!(w.frame, vec!["f"]);
    let skipped: Result<EncodeStatus, ()> = Ok(EncodeStatus::Skipped);
    let w = recorder_iteration(&mut waiters, msgs(vec![RecorderMessage::WaitForNextFlush("b")]), &skipped);
    assert!(w.flush.is_empty());
    let flushed: Result<EncodeStatus, ()> = Ok(EncodeStatus::Flushed);
    let w = recorder_iteration(&mut waiters, msgs(vec![RecorderMessage::WaitForNextFlush("c")]), &flushed);
    assert_eq!(w.flush, vec!["a", "b", "c"]);
    let w = recorder_iteration(&mut waiters, msgs(vec![]), &flushed);
    assert!(w.flush.is_empty());
}

#[test]
fn error_reaches_frame_and_flush_waiters() {
    let mut waiters = FlushWaiters::new();
    let pre: Result<EncodeStatus, &str> = Ok(EncodeStatus::PreBuffered);
    recorder_iteration(&mut waiters, msgs(vec![RecorderMessage::WaitForNextFlush("x")]), &pre);
    let failed: Result<EncodeStatus, &str> = Err("boom");
    let w = recorder_iteration(
        &mut waiters,
        msgs(vec![RecorderMessage::WaitForFrame("f"), RecorderMessage::WaitForNextFlush("y")]),
        &failed,
    );
    assert_eq!(w.frame, vec!["f"]);
    assert_eq!(w.flush, vec!["x", "y"]);
}

#[test]
fn releasing_results() {
    assert!(releases_flush_waiters::<()>(&Ok(EncodeStatus::Flushed)));
    assert!(!releases_flush_waiters::<()>(&Ok(EncodeStatus::PreBuffered)));
    assert!(!releases_flush_waiters::<()>(&Ok(EncodeStatus::Skipped)));
    assert!(releases_flush_waiters(&Err::<EncodeStatus, u8>(1)));
}

#[test]
fn handle_and_drain() {
    let mut waiters = FlushWaiters::new();
    assert_eq!(handle_recorder_message::<u8, u8>(RecorderMessage::WaitForFrame(1), &mut waiters), Some(1));
    assert_eq!(handle_recorder_message::<u8, u8>(RecorderMessage::WaitForNextFlush(2), &mut waiters), None);
    assert!(waiters.drain(&Ok::<EncodeStatus, ()>(EncodeStatus::PreBuffered)).is_empty());
    assert_eq!(waiters.drain(&Ok::<EncodeStatus, ()>(EncodeStatus::Flushed)), vec![2]);
    assert!(waiters.drain(&Ok::<EncodeStatus, ()>(EncodeStatus::Flushed)).is_empty());
}
