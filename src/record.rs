//! What the encoder worker does with each encoded chunk: stage it, or
//! publish the stage into the shared ring, and report which it did.

use crate::contiguous::{
    all_fit, first_too_large, write_all, GrowableBuffer, RingBuffer, RingModel, WriteDataError,
};
use vstd::prelude::*;

verus! {

/// Declares `std::io::Error` so that errors of the capture side can be carried.
#[verifier::external_type_specification]
#[verifier::external_body]
pub struct ExIoError(std::io::Error);

/// What is known of an encoded chunk besides its bytes.
#[derive(Debug, Clone, Copy, PartialEq, Eq, Structural)]
pub struct Metadata {
    pub is_key: bool,
}

/// What one iteration of the encoder worker did.
#[derive(Debug, Clone, Copy, PartialEq, Eq, Structural)]
pub enum EncodeStatus {
    /// No new frame was captured; nothing was encoded or stored.
    Skipped,
    /// The chunk was staged; readers do not see it yet.
    PreBuffered,
    /// The stage was published into the ring.
    Flushed,
}

/// The ways an iteration of the recorder can fail.
#[derive(Debug)]
pub enum RecordError {
    FrameError(std::io::Error),
    EncodeError,
    WriteDataError(WriteDataError),
}

/// The shared buffer's size in bytes, and how many chunks are staged before
/// they are published (`0`: every chunk is published at once).
#[derive(Debug, Clone, Copy, PartialEq, Eq, Structural)]
pub struct BufferingSettings {
    pub buffer_capacity: usize,
    pub buffered_frames: usize,
}

/// The status of a store when the stage, counting the new chunk, holds
/// `staged` chunks.
pub open spec fn store_status(buffered_frames: nat, staged: nat) -> EncodeStatus {
    if buffered_frames == 0 || staged > buffered_frames {
        EncodeStatus::Flushed
    } else {
        EncodeStatus::PreBuffered
    }
}

/// Whether `new_ring` is what publishing `all` into `ring` leaves, with `ok`
/// telling whether the publication succeeded: on failure the chunks before the
/// first one too large for the ring were written, and no other.
pub open spec fn published(
    ring: RingModel<Metadata>,
    all: Seq<(Seq<u8>, Metadata)>,
    new_ring: RingModel<Metadata>,
    ok: bool,
) -> bool {
    &&& ok <==> all_fit(all, ring.capacity())
    &&& ok ==> new_ring == write_all(ring, all)
    &&& !ok ==> exists|i: int|
        first_too_large(all, ring.capacity(), i) && new_ring == write_all(ring, all.take(i))
}

/// The encoder worker's side of the encoded buffer: the stage where chunks
/// wait until they are published into the shared ring.
pub struct EncodedBuffer {
    write_buf: GrowableBuffer<Metadata>,
}

impl View for EncodedBuffer {
    type V = Seq<(Seq<u8>, Metadata)>;

    closed spec fn view(&self) -> Seq<(Seq<u8>, Metadata)> {
        self.write_buf@
    }
}

impl EncodedBuffer {
    pub closed spec fn inv(&self) -> bool {
        self.write_buf.inv()
    }

    /// How many bytes the stage's arena holds.
    pub closed spec fn arena_len(&self) -> nat {
        self.write_buf.arena_len()
    }

    pub fn new() -> (r: Self)
        ensures
            r.inv(),
            r@.len() == 0,
            r.arena_len() == 0,
    {
        EncodedBuffer { write_buf: GrowableBuffer::new() }
    }

    /// Stages a chunk.
    pub fn write(&mut self, data: &[u8], metadata: Metadata)
        requires
            old(self).inv(),
            old(self).arena_len() + data@.len() <= usize::MAX,
        ensures
            final(self).inv(),
            final(self)@ == old(self)@.push((data@, metadata)),
            final(self).arena_len() == old(self).arena_len() + data@.len(),
    {
        self.write_buf.write(data, metadata);
    }

    /// Publishes the stage into `ring`, oldest chunk first.
    pub fn flush(&mut self, ring: &mut RingBuffer<Metadata>) -> (r: Result<(), WriteDataError>)
        requires
            old(self).inv(),
            old(ring).inv(),
            old(ring)@.end_id() + old(self)@.len() <= usize::MAX,
        ensures
            final(self).inv(),
            final(ring).inv(),
            final(self)@.len() == 0,
            r is Ok <==> all_fit(old(self)@, old(ring)@.capacity()),
            r is Ok ==> final(ring)@ == write_all(old(ring)@, old(self)@),
            r is Ok ==> final(self).arena_len() == 0,
            r is Err ==> final(self).arena_len() == old(self).arena_len(),
            r is Err ==> exists|i: int|
                first_too_large(old(self)@, old(ring)@.capacity(), i) && final(ring)@ == write_all(
                    old(ring)@,
                    old(self)@.take(i),
                ),
            r is Ok ==> final(ring)@.end_id() == old(ring)@.end_id() + old(self)@.len(),
            r is Err ==> final(ring)@.end_id() < old(ring)@.end_id() + old(self)@.len(),
    {
        let ghost ring0 = ring@;
        let ghost staged = self@;
        proof {
            ring.lemma_inv_well_formed();
        }
        let r = self.write_buf.dump_into_ring_buffer(ring);
        proof {
            if r is Ok {
                crate::contiguous::lemma_write_all_window(ring0, staged);
            } else {
                let i = choose|i: int|
                    first_too_large(staged, ring0.capacity(), i) && ring@ == write_all(
                        ring0,
                        staged.take(i),
                    );
                crate::contiguous::lemma_write_all_window(ring0, staged.take(i));
            }
        }
        r
    }

    /// Publishes the stage and then `data` into `ring`.
    pub fn write_flush(&mut self, ring: &mut RingBuffer<Metadata>, data: &[u8], metadata: Metadata)
        -> (r: Result<(), WriteDataError>)
        requires
            old(self).inv(),
            old(ring).inv(),
            old(ring)@.end_id() + old(self)@.len() + 1 <= usize::MAX,
        ensures
            final(self).inv(),
            final(ring).inv(),
            final(self)@.len() == 0,
            r is Ok <==> all_fit(old(self)@.push((data@, metadata)), old(ring)@.capacity()),
            r is Ok ==> final(ring)@ == write_all(old(ring)@, old(self)@.push((data@, metadata))),
            r is Ok ==> final(self).arena_len() == 0,
            r is Err ==> final(self).arena_len() <= old(self).arena_len(),
            r is Err ==> exists|i: int|
                first_too_large(old(self)@.push((data@, metadata)), old(ring)@.capacity(), i)
                    && final(ring)@ == write_all(old(ring)@, old(self)@.take(i)),
            r is Ok ==> final(ring)@.end_id() == old(ring)@.end_id() + old(self)@.len() + 1,
            r is Err ==> final(ring)@.end_id() <= old(ring)@.end_id() + old(self)@.len(),
    {
        let ghost all = self@.push((data@, metadata));
        let ghost ring0 = ring@;
        let ghost staged = self@;
        proof {
            ring.lemma_inv_well_formed();
        }
        assert(all.drop_last() =~= staged);
        let flushed = self.flush(ring);
        match flushed {
            Ok(()) => {},
            Err(e) => {
                proof {
                    let i = choose|i: int|
                        first_too_large(staged, ring0.capacity(), i) && ring@ == write_all(
                            ring0,
                            staged.take(i),
                        );
                    assert(all.take(i) =~= staged.take(i));
                    assert(all[i] == staged[i]);
                    assert(first_too_large(all, ring0.capacity(), i));
                }
                return Err(e);
            },
        }
        proof {
            crate::contiguous::lemma_write_all_window(ring0, staged);
            ring.lemma_inv_well_formed();
            if data@.len() <= ring0.capacity() {
                crate::contiguous::lemma_after_write_ids(ring@, data@, metadata);
            }
        }
        let written = ring.write(data, metadata);
        match written {
            Ok(()) => {
                assert(all_fit(all, ring0.capacity())) by {
                    assert forall|i: int| 0 <= i < all.len() implies #[trigger] all[i].0.len()
                        <= ring0.capacity() by {
                        if i < staged.len() {
                            assert(all[i] == staged[i]);
                        }
                    }
                }
                Ok(())
            },
            Err(e) => {
                assert(staged.take(staged.len() as int) =~= staged);
                assert(all[staged.len() as int] == (data@, metadata));
                assert(all.take(staged.len() as int) =~= staged);
                assert(first_too_large(all, ring0.capacity(), staged.len() as int));
                Err(e)
            },
        }
    }


    /// Stores what one iteration of the encoder produced: `None` when no new
    /// frame was captured, else the encoded chunk and its metadata. With
    /// `buffered_frames == 0` the stage and the chunk are published at once;
    /// otherwise the chunk is staged, and the stage is published when it
    /// holds more than `buffered_frames` chunks.
    pub fn update(
        &mut self,
        ring: &mut RingBuffer<Metadata>,
        buffered_frames: usize,
        encoded: Option<(&[u8], Metadata)>,
    ) -> (r: Result<EncodeStatus, WriteDataError>)
        requires
            old(self).inv(),
            old(ring).inv(),
            encoded is Some && store_status(buffered_frames as nat, old(self)@.len() + 1)
                == EncodeStatus::Flushed ==> old(ring)@.end_id() + old(self)@.len() + 1
                <= usize::MAX,
            buffered_frames > 0 ==> (encoded matches Some((data, _)) ==> old(self).arena_len()
                + data@.len() <= usize::MAX),
        ensures
            final(self).inv(),
            final(ring).inv(),
            encoded is None ==> r == Ok::<EncodeStatus, WriteDataError>(EncodeStatus::Skipped)
                && final(self)@ == old(self)@ && final(ring)@ == old(ring)@,
            encoded is None ==> final(self).arena_len() == old(self).arena_len(),
            encoded matches Some((data, metadata)) ==> store_status(
                buffered_frames as nat,
                old(self)@.len() + 1,
            ) == EncodeStatus::PreBuffered ==> final(self).arena_len() == old(self).arena_len()
                + data@.len(),
            encoded matches Some((data, metadata)) ==> store_status(
                buffered_frames as nat,
                old(self)@.len() + 1,
            ) == EncodeStatus::Flushed ==> (r is Ok ==> final(self).arena_len() == 0) && (r is Err
                ==> final(self).arena_len() <= old(self).arena_len() + data@.len()),
            encoded is Some && r is Ok ==> final(ring)@.end_id() + final(self)@.len() == old(
                ring,
            )@.end_id() + old(self)@.len() + 1,
            r is Err ==> final(ring)@.end_id() + final(self)@.len() <= old(ring)@.end_id() + old(
                self,
            )@.len() + 1,
            encoded matches Some((data, metadata)) ==> store_status(
                buffered_frames as nat,
                old(self)@.len() + 1,
            ) == EncodeStatus::PreBuffered ==> r == Ok::<EncodeStatus, WriteDataError>(
                EncodeStatus::PreBuffered,
            ) && final(self)@ == old(self)@.push((data@, metadata)) && final(ring)@ == old(ring)@,
            encoded matches Some((data, metadata)) ==> store_status(
                buffered_frames as nat,
                old(self)@.len() + 1,
            ) == EncodeStatus::Flushed ==> final(self)@.len() == 0 && (r is Ok ==> r == Ok::<
                EncodeStatus,
                WriteDataError,
            >(EncodeStatus::Flushed)) && published(
                old(ring)@,
                old(self)@.push((data@, metadata)),
                final(ring)@,
                r is Ok,
            ),
    {
        let (data, metadata) = match encoded {
            None => {
                return Ok(EncodeStatus::Skipped);
            },
            Some(chunk) => chunk,
        };
        let ghost all = self@.push((data@, metadata));
        let ghost staged = self@;
        let ghost ring0 = ring@;
        if buffered_frames == 0 {
            // publishing at once takes the ring's lock once per chunk, for the least latency
            let written = self.write_flush(ring, data, metadata);
            match written {
                Ok(()) => Ok(EncodeStatus::Flushed),
                Err(e) => {
                    proof {
                        let i = choose|i: int|
                            first_too_large(all, ring0.capacity(), i) && ring@ == write_all(
                                ring0,
                                staged.take(i),
                            );
                        assert(all.take(i) =~= staged.take(i));
                    }
                    Err(e)
                },
            }
        } else {
            self.write(data, metadata);
            if buffered_frames < self.write_buf_len() {
                let flushed = self.flush(ring);
                match flushed {
                    Ok(()) => Ok(EncodeStatus::Flushed),
                    Err(e) => Err(e),
                }
            } else {
                Ok(EncodeStatus::PreBuffered)
            }
        }
    }

    /// Whether storing one more chunk publishes the stage, so that the ring
    /// is needed; otherwise the chunk is only staged.
    pub fn publishes(&self, buffered_frames: usize) -> (r: bool)
        ensures
            r == (store_status(buffered_frames as nat, self@.len() + 1) == EncodeStatus::Flushed),
    {
        buffered_frames == 0 || buffered_frames < self.write_buf_len() || buffered_frames
            == self.write_buf_len()
    }

    /// How many bytes the stage's arena holds.
    pub fn arena_bytes(&self) -> (r: usize)
        requires
            self.inv(),
        ensures
            r == self.arena_len(),
    {
        self.write_buf.arena_bytes()
    }

    /// The number of staged chunks.
    pub fn write_buf_len(&self) -> (r: usize)
        ensures
            r == self@.len(),
    {
        self.write_buf.len()
    }

    pub fn write_buf_is_empty(&self) -> (r: bool)
        ensures
            r == (self@.len() == 0),
    {
        self.write_buf.is_empty()
    }
}

/// The first error among `results`, if any.
pub open spec fn first_error<T>(results: Seq<Result<T, RecordError>>) -> Option<RecordError>
    decreases results.len(),
{
    if results.len() == 0 {
        None
    } else {
        match results[0] {
            Err(e) => Some(e),
            Ok(_) => first_error(results.drop_first()),
        }
    }
}

/// Goes through the worker results that queued up and surfaces the first
/// error; the statuses are dropped.
pub fn first_record_error(results: Vec<Result<EncodeStatus, RecordError>>) -> (r: Option<
    RecordError,
>)
    ensures
        r == first_error(results@),
{
    let ghost all = results@;
    let mut pending = results;
    let mut rest: std::collections::VecDeque<Result<EncodeStatus, RecordError>> =
        std::collections::VecDeque::new();
    while pending.len() > 0
        invariant
            all == pending@ + rest@,
        decreases pending@.len(),
    {
        let ghost before = pending@;
        let item = pending.pop().unwrap();
        rest.push_front(item);
        assert(before =~= pending@.push(item));
        assert(all =~= pending@ + rest@);
    }
    assert(rest@ =~= all);
    while rest.len() > 0
        invariant
            first_error(all) == first_error(rest@),
            all == results@,
        decreases rest@.len(),
    {
        let ghost before = rest@;
        let item = rest.pop_front().unwrap();
        assert(before.drop_first() =~= rest@);
        assert(before[0] == item);
        match item {
            Err(e) => {
                assert(first_error(before) == Some(e));
                assert(first_error(all) == Some(e));
                return Some(e);
            },
            Ok(_) => {},
        }
    }
    None
}

/// Whether a caller waiting for the next flush is done with this worker
/// result: a flush ends the wait, an error ends it with that error, and the
/// other statuses are dropped.
pub fn flush_reached(result: Result<EncodeStatus, RecordError>) -> (r: Option<
    Result<(), RecordError>,
>)
    ensures
        result matches Err(e) ==> r == Some(Err::<(), RecordError>(e)),
        result == Ok::<EncodeStatus, RecordError>(EncodeStatus::Flushed) ==> r == Some(
            Ok::<(), RecordError>(()),
        ),
        result matches Ok(status) ==> status != EncodeStatus::Flushed ==> r is None,
{
    match result {
        Err(e) => Some(Err(e)),
        Ok(EncodeStatus::Flushed) => Some(Ok(())),
        Ok(_) => None,
    }
}

/// The statuses of a series of iterations that all succeed, starting from a
/// stage of `staged` chunks: `frames[t]` tells whether iteration `t` had a new
/// frame to store, or was skipped.
pub open spec fn status_run(buffered_frames: nat, staged: nat, frames: Seq<bool>) -> Seq<
    EncodeStatus,
>
    decreases frames.len(),
{
    if frames.len() == 0 {
        Seq::empty()
    } else {
        let status = if frames[0] {
            store_status(buffered_frames, staged + 1)
        } else {
            EncodeStatus::Skipped
        };
        let next = if status == EncodeStatus::Flushed {
            0
        } else if status == EncodeStatus::PreBuffered {
            staged + 1
        } else {
            staged
        };
        seq![status] + status_run(buffered_frames, next, frames.drop_first())
    }
}

/// The stage length after the first status of a run.
pub open spec fn next_staged(buffered_frames: nat, staged: nat, frame: bool) -> nat {
    if !frame {
        staged
    } else if store_status(buffered_frames, staged + 1) == EncodeStatus::Flushed {
        0
    } else {
        staged + 1
    }
}

/// How many of `statuses` are `PreBuffered`.
pub open spec fn count_prebuffered(statuses: Seq<EncodeStatus>) -> nat
    decreases statuses.len(),
{
    if statuses.len() == 0 {
        0
    } else {
        (if statuses[0] == EncodeStatus::PreBuffered {
            1nat
        } else {
            0nat
        }) + count_prebuffered(statuses.drop_first())
    }
}

proof fn lemma_status_run_unfold(buffered_frames: nat, staged: nat, frames: Seq<bool>)
    requires
        frames.len() > 0,
    ensures
        status_run(buffered_frames, staged, frames).len() == frames.len(),
        status_run(buffered_frames, staged, frames) == seq![
            status_run(buffered_frames, staged, frames)[0],
        ] + status_run(
            buffered_frames,
            next_staged(buffered_frames, staged, frames[0]),
            frames.drop_first(),
        ),
        status_run(buffered_frames, staged, frames)[0] == if frames[0] {
            store_status(buffered_frames, staged + 1)
        } else {
            EncodeStatus::Skipped
        },
{
    lemma_status_run_len(buffered_frames, staged, frames);
    lemma_status_run_len(
        buffered_frames,
        next_staged(buffered_frames, staged, frames[0]),
        frames.drop_first(),
    );
}

proof fn lemma_status_run_len(buffered_frames: nat, staged: nat, frames: Seq<bool>)
    ensures
        status_run(buffered_frames, staged, frames).len() == frames.len(),
    decreases frames.len(),
{
    if frames.len() > 0 {
        lemma_status_run_len(
            buffered_frames,
            next_staged(buffered_frames, staged, frames[0]),
            frames.drop_first(),
        );
    }
}

/// With no pre-buffering every iteration that had a frame publishes, and
/// every other one is skipped.
pub proof fn lemma_unbuffered_always_flushes(staged: nat, frames: Seq<bool>)
    ensures
        status_run(0, staged, frames).len() == frames.len(),
        forall|t: int|
            0 <= t < frames.len() ==> #[trigger] status_run(0, staged, frames)[t] == if frames[t] {
                EncodeStatus::Flushed
            } else {
                EncodeStatus::Skipped
            },
    decreases frames.len(),
{
    lemma_status_run_len(0, staged, frames);
    if frames.len() > 0 {
        lemma_status_run_unfold(0, staged, frames);
        let rest = frames.drop_first();
        lemma_unbuffered_always_flushes(next_staged(0, staged, frames[0]), rest);
        assert forall|t: int| 0 <= t < frames.len() implies #[trigger] status_run(
            0,
            staged,
            frames,
        )[t] == if frames[t] {
            EncodeStatus::Flushed
        } else {
            EncodeStatus::Skipped
        } by {
            if t > 0 {
                assert(frames[t] == rest[t - 1]);
            }
        }
    }
}

/// With `buffered_frames > 0`, between two flushes (or before the first one,
/// from a stage no fuller than `buffered_frames`) at most `buffered_frames`
/// iterations report `PreBuffered`, however many are skipped among them.
pub proof fn lemma_prebuffered_run_bounded(
    buffered_frames: nat,
    staged: nat,
    frames: Seq<bool>,
    i: int,
    j: int,
)
    requires
        buffered_frames > 0,
        staged <= buffered_frames,
        0 <= i <= j <= frames.len(),
        forall|t: int|
            i <= t < j ==> #[trigger] status_run(buffered_frames, staged, frames)[t]
                != EncodeStatus::Flushed,
    ensures
        count_prebuffered(status_run(buffered_frames, staged, frames).subrange(i, j))
            <= buffered_frames,
        i == 0 ==> staged + count_prebuffered(
            status_run(buffered_frames, staged, frames).subrange(i, j),
        ) <= buffered_frames,
    decreases frames.len(),
{
    lemma_status_run_len(buffered_frames, staged, frames);
    if i == j {
        assert(status_run(buffered_frames, staged, frames).subrange(i, j).len() == 0);
    } else {
        let run = status_run(buffered_frames, staged, frames);
        lemma_status_run_unfold(buffered_frames, staged, frames);
        let next = next_staged(buffered_frames, staged, frames[0]);
        let rest_frames = frames.drop_first();
        let rest = status_run(buffered_frames, next, rest_frames);
        assert forall|t: int| 0 <= t < rest.len() implies run[t + 1] == #[trigger] rest[t] by {}
        if i == 0 {
            assert(run[0] != EncodeStatus::Flushed);
            assert(next <= buffered_frames);
            assert forall|t: int| 0 <= t < j - 1 implies #[trigger] rest[t]
                != EncodeStatus::Flushed by {
                assert(run[t + 1] != EncodeStatus::Flushed);
            }
            lemma_prebuffered_run_bounded(buffered_frames, next, rest_frames, 0, j - 1);
            let window = run.subrange(0, j);
            assert(window.drop_first() =~= rest.subrange(0, j - 1));
            assert(window[0] == run[0]);
        } else {
            assert forall|t: int| i - 1 <= t < j - 1 implies #[trigger] rest[t]
                != EncodeStatus::Flushed by {
                assert(run[t + 1] != EncodeStatus::Flushed);
            }
            assert(next <= buffered_frames);
            lemma_prebuffered_run_bounded(buffered_frames, next, rest_frames, i - 1, j - 1);
            assert(run.subrange(i, j) =~= rest.subrange(i - 1, j - 1));
        }
    }
}

} // verus!
