//! Byte arenas that hold variable-sized chunks contiguously.
//!
//! `RingBuffer` is bounded and overwrites its oldest chunks; every chunk it
//! holds has an identifier that stays the same for as long as the chunk is
//! alive. `GrowableBuffer` is an unbounded staging area with the same item
//! model, whose chunks can be moved into a ring in one go.

use std::collections::VecDeque;
use vstd::prelude::*;
use vstd::slice::slice_subrange;

verus! {

/// Where one chunk lies in a byte arena, with its metadata.
struct ItemData<M> {
    start_index: usize,
    length: usize,
    metadata: M,
}

/// The placement of one chunk of a ring buffer, in the mathematical model.
pub struct Chunk<M> {
    pub start: nat,
    pub len: nat,
    pub metadata: M,
}

/// A chunk borrowed from a buffer: its bytes and its metadata.
pub struct BufferItem<'a, M> {
    data: &'a [u8],
    metadata: &'a M,
}

impl<'a, M> View for BufferItem<'a, M> {
    type V = (Seq<u8>, M);

    closed spec fn view(&self) -> (Seq<u8>, M) {
        (self.data@, *self.metadata)
    }
}

impl<'a, M> BufferItem<'a, M> {
    #[inline]
    pub fn data(&self) -> (r: &'a [u8])
        ensures
            r@ == self@.0,
    {
        self.data
    }

    #[inline]
    pub fn metadata(&self) -> (r: &M)
        ensures
            *r == self@.1,
    {
        self.metadata
    }
}

/// The state of a ring buffer: the arena's bytes, the live chunks from the
/// oldest to the newest, the write head, and the identifier of the oldest
/// live chunk.
pub struct RingModel<M> {
    pub bytes: Seq<u8>,
    pub chunks: Seq<Chunk<M>>,
    pub head: nat,
    pub first_id: nat,
}

/// Whether a chunk's bytes intersect the range `[start, end)`.
pub open spec fn overlaps<M>(c: Chunk<M>, start: nat, end: nat) -> bool {
    c.start < end && c.start + c.len > start
}

/// How many chunks a write to `[start, end)` evicts from the front of
/// `chunks`: every chunk up to the last one that intersects the range, so
/// that no live chunk intersects it and evictions only take a prefix.
pub open spec fn evicted_count<M>(chunks: Seq<Chunk<M>>, start: nat, end: nat) -> nat
    decreases chunks.len(),
{
    if chunks.len() == 0 {
        0
    } else if overlaps(chunks.last(), start, end) {
        chunks.len()
    } else {
        evicted_count(chunks.drop_last(), start, end)
    }
}

impl<M> RingModel<M> {
    /// A fresh arena of `capacity` zero bytes with no chunk in it.
    pub open spec fn empty(capacity: nat) -> RingModel<M> {
        RingModel {
            bytes: Seq::new(capacity, |i: int| 0u8),
            chunks: Seq::empty(),
            head: 0,
            first_id: 0,
        }
    }

    pub open spec fn capacity(self) -> nat {
        self.bytes.len()
    }

    /// One past the identifier of the newest live chunk.
    pub open spec fn end_id(self) -> nat {
        self.first_id + self.chunks.len()
    }

    pub open spec fn is_live(self, id: int) -> bool {
        self.first_id <= id < self.end_id()
    }

    /// The bytes of the chunk at position `i` of the queue.
    pub open spec fn data_at(self, i: int) -> Seq<u8> {
        self.bytes.subrange(
            self.chunks[i].start as int,
            (self.chunks[i].start + self.chunks[i].len) as int,
        )
    }

    /// The bytes of the live chunk with identifier `id`.
    pub open spec fn data_of(self, id: int) -> Seq<u8> {
        self.data_at(id - self.first_id)
    }

    /// The metadata of the live chunk with identifier `id`.
    pub open spec fn metadata_of(self, id: int) -> M {
        self.chunks[id - self.first_id].metadata
    }

    pub open spec fn well_formed(self) -> bool {
        &&& self.head <= self.capacity()
        &&& forall|i: int|
            0 <= i < self.chunks.len() ==> #[trigger] self.chunks[i].start + self.chunks[i].len
                <= self.capacity()
    }

    /// Where a chunk of `len` bytes is placed: at the head, or at the start
    /// of the arena when it does not fit in front of the head.
    pub open spec fn write_start(self, len: nat) -> nat {
        if self.capacity() < self.head + len {
            0
        } else {
            self.head
        }
    }

    /// The state after a successful write of `data`: the bytes are placed at
    /// `write_start`, the chunks they intersect are evicted together with the
    /// older ones in front of them, and the new chunk joins the back of the
    /// queue.
    pub open spec fn after_write(self, data: Seq<u8>, metadata: M) -> RingModel<M> {
        let start = self.write_start(data.len());
        let end = start + data.len();
        let evicted = evicted_count(self.chunks, start, end);
        RingModel {
            bytes: self.bytes.take(start as int) + data + self.bytes.skip(end as int),
            chunks: self.chunks.skip(evicted as int).push(
                Chunk { start: start, len: data.len(), metadata: metadata },
            ),
            head: end,
            first_id: self.first_id + evicted,
        }
    }
}

/// Overwrites `buf` from `start` on with the bytes of `data`.
fn copy_into(buf: &mut Vec<u8>, start: usize, data: &[u8])
    requires
        start + data@.len() <= old(buf)@.len(),
        old(buf)@.len() <= usize::MAX,
    ensures
        final(buf)@ == old(buf)@.take(start as int) + data@ + old(buf)@.skip(start + data@.len()),
{
    let mut i: usize = 0;
    while i < data.len()
        invariant
            start + data@.len() <= buf@.len(),
            buf@.len() == old(buf)@.len(),
            buf@.len() <= usize::MAX,
            i <= data@.len(),
            forall|k: int| 0 <= k < start ==> buf@[k] == old(buf)@[k],
            forall|k: int| 0 <= k < i ==> buf@[start + k] == data@[k],
            forall|k: int| start + i <= k < buf@.len() ==> buf@[k] == old(buf)@[k],
        decreases data@.len() - i,
    {
        buf[start + i] = data[i];
        i = i + 1;
    }
    assert(buf@ =~= old(buf)@.take(start as int) + data@ + old(buf)@.skip(start + data@.len()));
}

/// Raised when a chunk is larger than the whole arena of a ring buffer.
#[derive(Debug, Clone, Copy, PartialEq, Eq, Structural)]
pub enum WriteDataError {
    DataTooLarge,
}

/// A ring buffer holding arbitrarily sized byte chunks contiguously.
pub struct RingBuffer<M> {
    buf: Vec<u8>,
    items: VecDeque<ItemData<M>>,
    write_head_position: usize,
    // identifiers survive evictions: the one of `items[i]` is `id_offset + i`
    id_offset: usize,
}

impl<M> View for RingBuffer<M> {
    type V = RingModel<M>;

    closed spec fn view(&self) -> RingModel<M> {
        RingModel {
            bytes: self.buf@,
            chunks: self.items@.map_values(
                |d: ItemData<M>| Chunk { start: d.start_index as nat, len: d.length as nat, metadata: d.metadata },
            ),
            head: self.write_head_position as nat,
            first_id: self.id_offset as nat,
        }
    }
}

impl<M> RingBuffer<M> {
    /// The ring's model is well formed and its identifiers fit in `usize`.
    pub closed spec fn inv(&self) -> bool {
        &&& self@.well_formed()
        &&& self.buf@.len() <= usize::MAX
        &&& self.id_offset + self.items@.len() <= usize::MAX
    }

    /// A ring that keeps its invariant has a well-formed model.
    pub proof fn lemma_inv_well_formed(&self)
        requires
            self.inv(),
        ensures
            self@.well_formed(),
            self@.capacity() <= usize::MAX,
    {
    }

    #[inline]
    pub fn new(cap: usize) -> (r: Self)
        ensures
            r.inv(),
            r@ == RingModel::<M>::empty(cap as nat),
    {
        let buf: Vec<u8> = vec![0u8; cap];
        let items: VecDeque<ItemData<M>> = VecDeque::new();
        let r = RingBuffer { buf, items, write_head_position: 0, id_offset: 0 };
        assert(r@.bytes =~= RingModel::<M>::empty(cap as nat).bytes);
        assert(r@.chunks =~= Seq::<Chunk<M>>::empty());
        r
    }

    /// Writes `data` as a new chunk behind the newest one. Every chunk whose
    /// bytes it overwrites is evicted, together with the older chunks in front
    /// of it. A chunk larger than the arena is refused and leaves the ring
    /// unchanged.
    pub fn write(&mut self, data: &[u8], metadata: M) -> (r: Result<(), WriteDataError>)
        requires
            old(self).inv(),
            old(self)@.end_id() < usize::MAX,
        ensures
            final(self).inv(),
            r is Err <==> data@.len() > old(self)@.capacity(),
            r is Err ==> final(self)@ == old(self)@,
            r is Ok ==> final(self)@ == old(self)@.after_write(data@, metadata),
    {
        if data.len() > self.buf.len() {
            return Err(WriteDataError::DataTooLarge);
        }
        let ghost old_view = self@;
        // the head goes back to the start when the chunk does not fit in front of it
        let free_space = self.buf.len() - self.write_head_position;
        if free_space < data.len() {
            self.write_head_position = 0;
        }
        let start_index = self.write_head_position;
        let end_index = start_index + data.len();
        assert(start_index == old_view.write_start(data@.len()));
        copy_into(&mut self.buf, start_index, data);
        self.write_head_position = end_index;
        let ghost bytes = self.buf@;

        // find the last chunk that the new bytes overwrote
        let ghost chunks = old_view.chunks;
        let n = self.items.len();
        let mut evict: usize = 0;
        let mut i: usize = 0;
        while i < n
            invariant
                n == self.items@.len(),
                self@.chunks == chunks,
                i <= n,
                evict <= i,
                evict == evicted_count(chunks.take(i as int), start_index as nat, end_index as nat),
                old_view.well_formed(),
                old_view.capacity() <= usize::MAX,
                chunks == old_view.chunks,
            decreases n - i,
        {
            let item = &self.items[i];
            assert(chunks[i as int].start == item.start_index && chunks[i as int].len == item.length);
            assert(chunks[i as int].start + chunks[i as int].len <= old_view.capacity());
            assert(chunks.take(i + 1).drop_last() =~= chunks.take(i as int));
            assert(chunks.take(i + 1).last() == chunks[i as int]);
            if item.start_index < end_index && item.start_index + item.length > start_index {
                evict = i + 1;
            }
            i = i + 1;
        }
        assert(chunks.take(n as int) =~= chunks);

        // evict it and every older chunk
        let ghost first = self.id_offset;
        let mut j: usize = 0;
        while j < evict
            invariant
                evict <= n,
                n == chunks.len(),
                j <= evict,
                self.id_offset == first + j,
                self@.chunks == chunks.skip(j as int),
                first == old_view.first_id,
                chunks == old_view.chunks,
                old_view.end_id() < usize::MAX,
                self.buf@ == bytes,
                self.write_head_position == end_index,
            decreases evict - j,
        {
            let ghost before = self@.chunks;
            assert(before.len() > 0);
            self.items.pop_front();
            assert(self@.chunks =~= before.drop_first());
            self.id_offset = self.id_offset + 1;
            j = j + 1;
            assert(self@.chunks =~= chunks.skip(j as int));
        }
        let ghost evicted = self.id_offset - first;
        self.items.push_back(ItemData { start_index, length: data.len(), metadata });
        assert(self@.chunks =~= old_view.chunks.skip(evicted).push(
            Chunk { start: start_index as nat, len: data@.len(), metadata: metadata },
        ));
        assert(self@.bytes =~= old_view.bytes.take(start_index as int) + data@ + old_view.bytes.skip(
            end_index as int,
        ));
        assert(self@ == old_view.after_write(data@, metadata));
        Ok(())
    }

    /// The chunk with identifier `id`, if it is live.
    pub fn get(&self, id: usize) -> (r: Option<BufferItem<'_, M>>)
        requires
            self.inv(),
        ensures
            r is Some <==> self@.is_live(id as int),
            r matches Some(item) ==> item@ == (self@.data_of(id as int), self@.metadata_of(id as int)),
    {
        let end = self.id_offset + self.items.len();
        if id < self.id_offset || id >= end {
            return None;
        }
        let index = id - self.id_offset;
        let item_data = &self.items[index];
        let slice_start = item_data.start_index;
        assert(self@.chunks[index as int].start + self@.chunks[index as int].len <= self@.capacity());
        let slice_end = slice_start + item_data.length;
        let item = BufferItem {
            data: slice_subrange(self.buf.as_slice(), slice_start, slice_end),
            metadata: &item_data.metadata,
        };
        Some(item)
    }

    /// The live chunks, from the oldest to the newest.
    pub fn iter(&self) -> (r: Vec<BufferItem<'_, M>>)
        requires
            self.inv(),
        ensures
            r@.len() == self@.chunks.len(),
            forall|i: int|
                0 <= i < r@.len() ==> #[trigger] r@[i]@ == (self@.data_at(i), self@.chunks[i].metadata),
    {
        let mut out: Vec<BufferItem<'_, M>> = Vec::new();
        let mut i: usize = 0;
        while i < self.items.len()
            invariant
                self.inv(),
                i <= self.items@.len(),
                out@.len() == i,
                forall|k: int|
                    0 <= k < i ==> #[trigger] out@[k]@ == (self@.data_at(k), self@.chunks[k].metadata),
            decreases self.items@.len() - i,
        {
            let item_data = &self.items[i];
            assert(self@.chunks[i as int].start + self@.chunks[i as int].len <= self@.capacity());
            let slice_start = item_data.start_index;
            let slice_end = slice_start + item_data.length;
            out.push(
                BufferItem {
                    data: slice_subrange(self.buf.as_slice(), slice_start, slice_end),
                    metadata: &item_data.metadata,
                },
            );
            i = i + 1;
        }
        out
    }

    /// The live chunks with identifiers from `id` on, oldest first: what a
    /// reader that has seen every chunk below `id` still has to read. When
    /// chunks below the live window were missed, reading resumes at the
    /// window's oldest chunk.
    pub fn chunks_from(&self, id: usize) -> (r: Vec<BufferItem<'_, M>>)
        requires
            self.inv(),
        ensures
            ({
                let from = if id < self@.first_id {
                    self@.first_id as int
                } else {
                    id as int
                };
                &&& r@.len() == if from < self@.end_id() {
                    self@.end_id() - from
                } else {
                    0
                }
                &&& forall|k: int|
                    0 <= k < r@.len() ==> #[trigger] r@[k]@ == (
                        self@.data_of(from + k),
                        self@.metadata_of(from + k),
                    )
            }),
    {
        let (min, max) = self.id_bounds();
        let mut next = if id < min {
            min
        } else {
            id
        };
        let ghost from = next as int;
        let mut out: Vec<BufferItem<'_, M>> = Vec::new();
        while next < max
            invariant
                self.inv(),
                max == self@.end_id(),
                from <= next,
                from >= self@.first_id,
                from < max ==> next <= max,
                from >= max ==> next == from,
                out@.len() == next - from,
                forall|k: int|
                    0 <= k < out@.len() ==> #[trigger] out@[k]@ == (
                        self@.data_of(from + k),
                        self@.metadata_of(from + k),
                    ),
            decreases max - next,
        {
            out.push(self.get(next).unwrap());
            next = next + 1;
        }
        out
    }

    /// The half-open range of live identifiers.
    #[inline]
    pub fn id_bounds(&self) -> (r: (usize, usize))
        requires
            self.inv(),
        ensures
            r.0 == self@.first_id,
            r.1 == self@.end_id(),
            r.0 <= r.1,
    {
        (self.id_offset, self.id_offset + self.items.len())
    }

    /// The number of live chunks.
    #[inline]
    pub fn len(&self) -> (r: usize)
        ensures
            r == self@.chunks.len(),
    {
        self.items.len()
    }

    #[inline]
    pub fn is_empty(&self) -> (r: bool)
        ensures
            r == (self@.chunks.len() == 0),
    {
        self.items.len() == 0
    }
}

/// The ring after `items` were written into it one after the other, each
/// given as its bytes and its metadata.
pub open spec fn write_all<M>(ring: RingModel<M>, items: Seq<(Seq<u8>, M)>) -> RingModel<M>
    decreases items.len(),
{
    if items.len() == 0 {
        ring
    } else {
        write_all(ring, items.drop_last()).after_write(items.last().0, items.last().1)
    }
}

/// Whether each of `items` fits in an arena of `capacity` bytes.
pub open spec fn all_fit<M>(items: Seq<(Seq<u8>, M)>, capacity: nat) -> bool {
    forall|i: int| 0 <= i < items.len() ==> #[trigger] items[i].0.len() <= capacity
}

/// The chunks a write evicts are a prefix that ends with one the write
/// intersects; none of the chunks behind it intersects the write.
pub proof fn lemma_evicted_count<M>(chunks: Seq<Chunk<M>>, start: nat, end: nat)
    ensures
        evicted_count(chunks, start, end) <= chunks.len(),
        evicted_count(chunks, start, end) > 0 ==> overlaps(
            chunks[evicted_count(chunks, start, end) - 1],
            start,
            end,
        ),
        forall|i: int|
            evicted_count(chunks, start, end) <= i < chunks.len() ==> !overlaps(
                #[trigger] chunks[i],
                start,
                end,
            ),
    decreases chunks.len(),
{
    if chunks.len() > 0 {
        let rest = chunks.drop_last();
        lemma_evicted_count(rest, start, end);
        assert forall|i: int| evicted_count(chunks, start, end) <= i < chunks.len() implies !overlaps(
            #[trigger] chunks[i],
            start,
            end,
        ) by {
            if i < rest.len() {
                assert(chunks[i] == rest[i]);
            }
        }
        if !overlaps(chunks.last(), start, end) && evicted_count(chunks, start, end) > 0 {
            assert(chunks[evicted_count(chunks, start, end) - 1] == rest[evicted_count(
                rest,
                start,
                end,
            ) - 1]);
        }
    }
}

/// A write that fits adds one identifier at the top of the live window, never
/// lowers its bottom, and keeps the arena's size.
pub proof fn lemma_after_write_ids<M>(m: RingModel<M>, data: Seq<u8>, metadata: M)
    requires
        m.well_formed(),
        data.len() <= m.capacity(),
    ensures
        m.after_write(data, metadata).end_id() == m.end_id() + 1,
        m.after_write(data, metadata).first_id >= m.first_id,
        m.after_write(data, metadata).capacity() == m.capacity(),
        m.after_write(data, metadata).well_formed(),
{
    let start = m.write_start(data.len());
    let end = start + data.len();
    lemma_evicted_count(m.chunks, start, end);
    let after = m.after_write(data, metadata);
    let k = evicted_count(m.chunks, start, end);
    assert forall|i: int| 0 <= i < after.chunks.len() implies #[trigger] after.chunks[i].start
        + after.chunks[i].len <= after.capacity() by {
        if i < after.chunks.len() - 1 {
            assert(after.chunks[i] == m.chunks[i + k]);
            assert(m.chunks[i + k].start + m.chunks[i + k].len <= m.capacity());
        }
    }
}

/// Whether `items[i]` is the first of `items` that does not fit in an arena
/// of `capacity` bytes.
pub open spec fn first_too_large<M>(items: Seq<(Seq<u8>, M)>, capacity: nat, i: int) -> bool {
    &&& 0 <= i < items.len()
    &&& items[i].0.len() > capacity
    &&& all_fit(items.take(i), capacity)
}

/// An unbounded staging buffer with the item model of `RingBuffer`.
pub struct GrowableBuffer<M> {
    buf: Vec<u8>,
    items: VecDeque<ItemData<M>>,
}

impl<M> View for GrowableBuffer<M> {
    /// The staged chunks, oldest first, each as its bytes and its metadata.
    type V = Seq<(Seq<u8>, M)>;

    closed spec fn view(&self) -> Seq<(Seq<u8>, M)> {
        self.items@.map_values(
            |d: ItemData<M>|
                (
                    self.buf@.subrange(d.start_index as int, d.start_index + d.length),
                    d.metadata,
                ),
        )
    }
}

impl<M> GrowableBuffer<M> {
    /// Every staged chunk lies inside the arena.
    pub closed spec fn inv(&self) -> bool {
        &&& self.buf@.len() <= usize::MAX
        &&& forall|i: int|
            0 <= i < self.items@.len() ==> #[trigger] self.items@[i].start_index
                + self.items@[i].length <= self.buf@.len()
    }

    /// How many bytes the arena holds; `write` appends to them.
    pub closed spec fn arena_len(&self) -> nat {
        self.buf@.len()
    }

    pub fn new() -> (r: Self)
        ensures
            r.inv(),
            r@.len() == 0,
            r.arena_len() == 0,
    {
        GrowableBuffer { buf: Vec::new(), items: VecDeque::new() }
    }

    /// Appends `data` as a new chunk behind the staged ones.
    pub fn write(&mut self, data: &[u8], metadata: M)
        requires
            old(self).inv(),
            old(self).arena_len() + data@.len() <= usize::MAX,
        ensures
            final(self).inv(),
            final(self)@ == old(self)@.push((data@, metadata)),
            final(self).arena_len() == old(self).arena_len() + data@.len(),
    {
        let ghost old_view = self@;
        let start_index = self.buf.len();
        let length = data.len();
        let item = ItemData { start_index, length, metadata };
        self.buf.extend_from_slice(data);
        assert(self.buf@.subrange(0, start_index as int) =~= old(self).buf@);
        assert(self.buf@.subrange(start_index as int, start_index + length) =~= data@);
        self.items.push_back(item);
        assert forall|i: int| 0 <= i < old_view.len() implies #[trigger] self@[i] == old_view[i] by {
            let d = self.items@[i];
            assert(self.buf@.subrange(d.start_index as int, d.start_index + d.length)
                =~= old(self).buf@.subrange(d.start_index as int, d.start_index + d.length));
        }
        assert(self@ =~= old_view.push((data@, metadata)));
    }

    /// Writes the staged chunks into `ring_buf` in order and empties the
    /// stage. The first chunk that the ring refuses ends the dump with its
    /// error; the chunks behind it are dropped.
    pub fn dump_into_ring_buffer(&mut self, ring_buf: &mut RingBuffer<M>) -> (r: Result<
        (),
        WriteDataError,
    >)
        requires
            old(self).inv(),
            old(ring_buf).inv(),
            old(ring_buf)@.end_id() + old(self)@.len() <= usize::MAX,
        ensures
            final(self).inv(),
            final(ring_buf).inv(),
            final(self)@.len() == 0,
            r is Ok <==> all_fit(old(self)@, old(ring_buf)@.capacity()),
            r is Ok ==> final(ring_buf)@ == write_all(old(ring_buf)@, old(self)@),
            r is Ok ==> final(self).arena_len() == 0,
            r is Err ==> final(self).arena_len() == old(self).arena_len(),
            r is Err ==> exists|i: int|
                first_too_large(old(self)@, old(ring_buf)@.capacity(), i) && final(ring_buf)@
                    == write_all(old(ring_buf)@, old(self)@.take(i)),
    {
        let ghost staged = self@;
        let ghost ring0 = ring_buf@;
        let ghost n = staged.len();
        while self.items.len() > 0
            invariant
                self.inv(),
                ring_buf.inv(),
                self.buf@ == old(self).buf@,
                self.items@.len() <= n,
                self@ == staged.skip(n - self.items@.len()),
                ring_buf@ == write_all(ring0, staged.take(n - self.items@.len())),
                ring_buf@.capacity() == ring0.capacity(),
                ring_buf@.end_id() + self.items@.len() <= usize::MAX,
                all_fit(staged.take(n - self.items@.len()), ring0.capacity()),
                n == staged.len(),
                staged == old(self)@,
                ring0 == old(ring_buf)@,
            decreases self.items@.len(),
        {
            let ghost done = n - self.items@.len();
            let ghost before = self@;
            let item = self.items.pop_front().unwrap();
            assert(before[0] == staged[done]);
            assert(item.start_index + item.length <= self.buf@.len());
            let end_index = item.start_index + item.length;
            let data = slice_subrange(self.buf.as_slice(), item.start_index, end_index);
            assert(self@ =~= before.drop_first());
            assert(data@ == staged[done].0);
            assert(staged.take(done + 1).drop_last() =~= staged.take(done));
            assert(staged.take(done + 1).last() == staged[done]);
            proof {
                if data@.len() <= ring_buf@.capacity() {
                    lemma_after_write_ids(ring_buf@, data@, item.metadata);
                }
            }
            match ring_buf.write(data, item.metadata) {
                Ok(()) => {},
                Err(e) => {
                    self.items.clear();
                    assert(self@ =~= Seq::<(Seq<u8>, M)>::empty());
                    assert(all_fit(staged.take(done), ring0.capacity()));
                    assert(staged[done].0.len() > ring0.capacity());
                    assert(!all_fit(staged, ring0.capacity()));
                    assert(staged == old(self)@ && ring0 == old(ring_buf)@);
                    assert(first_too_large(old(self)@, old(ring_buf)@.capacity(), done as int)
                        && ring_buf@ == write_all(old(ring_buf)@, old(self)@.take(done)));
                    return Err(e);
                },
            }
            assert(self@ =~= staged.skip(done + 1));
        }
        self.buf.clear();
        assert(staged.take(n as int) =~= staged);
        Ok(())
    }

    /// The staged chunk at position `index`, if there is one.
    #[inline]
    pub fn get(&self, index: usize) -> (r: Option<BufferItem<'_, M>>)
        requires
            self.inv(),
        ensures
            r is Some <==> index < self@.len(),
            r matches Some(item) ==> item@ == self@[index as int],
    {
        if index >= self.items.len() {
            return None;
        }
        let item = &self.items[index];
        assert(item.start_index + item.length <= self.buf@.len());
        let end = item.start_index + item.length;
        Some(
            BufferItem {
                data: slice_subrange(self.buf.as_slice(), item.start_index, end),
                metadata: &item.metadata,
            },
        )
    }

    /// The staged chunks, oldest first.
    pub fn iter(&self) -> (r: Vec<BufferItem<'_, M>>)
        requires
            self.inv(),
        ensures
            r@.len() == self@.len(),
            forall|i: int| 0 <= i < r@.len() ==> #[trigger] r@[i]@ == self@[i],
    {
        let mut out: Vec<BufferItem<'_, M>> = Vec::new();
        let mut i: usize = 0;
        while i < self.items.len()
            invariant
                self.inv(),
                i <= self.items@.len(),
                out@.len() == i,
                forall|k: int| 0 <= k < i ==> #[trigger] out@[k]@ == self@[k],
            decreases self.items@.len() - i,
        {
            let item = &self.items[i];
            assert(item.start_index + item.length <= self.buf@.len());
            let end = item.start_index + item.length;
            out.push(
                BufferItem {
                    data: slice_subrange(self.buf.as_slice(), item.start_index, end),
                    metadata: &item.metadata,
                },
            );
            i = i + 1;
        }
        out
    }

    /// How many bytes the arena holds.
    pub fn arena_bytes(&self) -> (r: usize)
        requires
            self.inv(),
        ensures
            r == self.arena_len(),
    {
        self.buf.len()
    }

    /// The number of staged chunks.
    #[inline]
    pub fn len(&self) -> (r: usize)
        ensures
            r == self@.len(),
    {
        self.items.len()
    }

    #[inline]
    pub fn is_empty(&self) -> (r: bool)
        ensures
            r == (self@.len() == 0),
    {
        self.items.len() == 0
    }
}

} // verus!

verus! {

/// The total number of bytes in `items`.
pub open spec fn total_len<M>(items: Seq<(Seq<u8>, M)>) -> nat
    decreases items.len(),
{
    if items.len() == 0 {
        0
    } else {
        total_len(items.drop_last()) + items.last().0.len()
    }
}

/// A write sequence of fitting chunks keeps the ring well formed and its
/// size, gives the chunks consecutive identifiers from `end_id` on, never
/// lowers the bottom of the live window, and leaves every chunk that stays
/// live where it was.
pub proof fn lemma_write_all_window<M>(m: RingModel<M>, items: Seq<(Seq<u8>, M)>)
    requires
        m.well_formed(),
        all_fit(items, m.capacity()),
    ensures
        write_all(m, items).well_formed(),
        write_all(m, items).capacity() == m.capacity(),
        write_all(m, items).end_id() == m.end_id() + items.len(),
        write_all(m, items).first_id >= m.first_id,
        forall|id: int|
            m.is_live(id) && write_all(m, items).is_live(id) ==> #[trigger] write_all(
                m,
                items,
            ).chunks[id - write_all(m, items).first_id] == m.chunks[id - m.first_id],
    decreases items.len(),
{
    if items.len() > 0 {
        let prefix = items.drop_last();
        assert(all_fit(prefix, m.capacity())) by {
            assert forall|i: int| 0 <= i < prefix.len() implies #[trigger] prefix[i].0.len()
                <= m.capacity() by {
                assert(prefix[i] == items[i]);
            }
        }
        lemma_write_all_window(m, prefix);
        let mid = write_all(m, prefix);
        let last = items.last();
        assert(last == items[items.len() - 1]);
        lemma_after_write_ids(mid, last.0, last.1);
        let r = write_all(m, items);
        assert forall|id: int| m.is_live(id) && r.is_live(id) implies #[trigger] r.chunks[id
            - r.first_id] == m.chunks[id - m.first_id] by {
            assert(mid.is_live(id));
            let start = mid.write_start(last.0.len());
            let k = evicted_count(mid.chunks, start, start + last.0.len());
            lemma_evicted_count(mid.chunks, start, start + last.0.len());
            assert(r.chunks[id - r.first_id] == mid.chunks[id - r.first_id + k]);
            assert(mid.chunks[id - mid.first_id] == m.chunks[id - m.first_id]);
        }
    }
}

/// Identifiers are never reused: a later write of a sequence gets a greater
/// identifier than an earlier one. The chunk written at step `i` gets the
/// identifier `end_id` of the ring before that step.
pub proof fn lemma_ids_never_reused<M>(m: RingModel<M>, items: Seq<(Seq<u8>, M)>, i: int, j: int)
    requires
        m.well_formed(),
        all_fit(items, m.capacity()),
        0 <= i < j < items.len(),
    ensures
        write_all(m, items.take(i)).end_id() < write_all(m, items.take(j)).end_id(),
{
    assert(all_fit(items.take(i), m.capacity())) by {
        assert forall|k: int| 0 <= k < i implies #[trigger] items.take(i)[k].0.len()
            <= m.capacity() by {
            assert(items.take(i)[k] == items[k]);
        }
    }
    assert(all_fit(items.take(j), m.capacity())) by {
        assert forall|k: int| 0 <= k < j implies #[trigger] items.take(j)[k].0.len()
            <= m.capacity() by {
            assert(items.take(j)[k] == items[k]);
        }
    }
    lemma_write_all_window(m, items.take(i));
    lemma_write_all_window(m, items.take(j));
}

/// Evictions only ever take a prefix: after any sequence of fitting writes,
/// an identifier that was handed out but is no longer live lies below the
/// live window, and so does every smaller one; the chunks that stay live keep
/// their place and metadata.
pub proof fn lemma_evictions_prefix_only<M>(m: RingModel<M>, items: Seq<(Seq<u8>, M)>, id: int)
    requires
        m.well_formed(),
        all_fit(items, m.capacity()),
        0 <= id < write_all(m, items).end_id(),
        !write_all(m, items).is_live(id),
    ensures
        forall|j: int| 0 <= j <= id ==> !(#[trigger] write_all(m, items).is_live(j)),
        forall|j: int|
            m.is_live(j) && write_all(m, items).is_live(j) ==> #[trigger] write_all(
                m,
                items,
            ).chunks[j - write_all(m, items).first_id] == m.chunks[j - m.first_id],
{
    lemma_write_all_window(m, items);
}

/// Chunks whose sizes add up to at most the capacity, written into a fresh
/// ring, all stay retrievable: each gets the identifier of its position and
/// holds exactly its bytes and metadata.
pub proof fn lemma_fitting_writes_retained<M>(m: RingModel<M>, items: Seq<(Seq<u8>, M)>)
    requires
        m.well_formed(),
        m.chunks.len() == 0,
        m.head == 0,
        total_len(items) <= m.capacity(),
    ensures
        write_all(m, items).first_id == m.first_id,
        write_all(m, items).chunks.len() == items.len(),
        write_all(m, items).head == total_len(items),
        write_all(m, items).capacity() == m.capacity(),
        forall|i: int|
            0 <= i < items.len() ==> (#[trigger] write_all(m, items).data_at(i) == items[i].0
                && write_all(m, items).chunks[i].metadata == items[i].1),
        forall|i: int|
            0 <= i < items.len() ==> #[trigger] write_all(m, items).chunks[i].start + write_all(
                m,
                items,
            ).chunks[i].len <= total_len(items),
    decreases items.len(),
{
    if items.len() > 0 {
        let prefix = items.drop_last();
        lemma_fitting_writes_retained(m, prefix);
        let mid = write_all(m, prefix);
        let last = items.last();
        let head = mid.head;
        let end = head + last.0.len();
        assert(mid.write_start(last.0.len()) == head);
        lemma_evicted_count(mid.chunks, head, end);
        if evicted_count(mid.chunks, head, end) > 0 {
            let k = evicted_count(mid.chunks, head, end);
            assert(mid.chunks[k - 1].start + mid.chunks[k - 1].len <= head);
        }
        assert(evicted_count(mid.chunks, head, end) == 0);
        let r = write_all(m, items);
        assert(r.chunks =~= mid.chunks.push(
            Chunk { start: head, len: last.0.len(), metadata: last.1 },
        ));
        assert forall|i: int| 0 <= i < items.len() implies (#[trigger] r.data_at(i) == items[i].0
            && r.chunks[i].metadata == items[i].1) by {
            if i < prefix.len() {
                assert(prefix[i] == items[i]);
                assert(mid.chunks[i].start + mid.chunks[i].len <= head);
                assert(r.data_at(i) =~= mid.data_at(i));
            } else {
                assert(r.data_at(i) =~= last.0);
            }
        }
    }
}

/// A write leaves alone the bytes of a range that it does not intersect.
proof fn lemma_write_keeps_other_bytes<M>(m: RingModel<M>, data: Seq<u8>, metadata: M, a: int, b: int)
    requires
        m.well_formed(),
        data.len() <= m.capacity(),
        0 <= a <= b <= m.capacity(),
        b <= m.write_start(data.len()) || a >= m.write_start(data.len()) + data.len(),
    ensures
        m.after_write(data, metadata).bytes.subrange(a, b) == m.bytes.subrange(a, b),
{
    let after = m.after_write(data, metadata);
    let start = m.write_start(data.len());
    let end = start + data.len();
    assert(after.bytes.len() == m.bytes.len());
    assert forall|x: int| a <= x < b implies after.bytes[x] == m.bytes[x] by {
        if x < start {
            assert(after.bytes[x] == m.bytes.take(start as int)[x]);
        } else {
            assert(after.bytes[x] == m.bytes.skip(end as int)[x - end]);
        }
    }
    assert(after.bytes.subrange(a, b) =~= m.bytes.subrange(a, b));
}

/// Whether no two chunks of `chunks` share a byte.
pub open spec fn disjoint_chunks<M>(chunks: Seq<Chunk<M>>) -> bool {
    forall|i: int, j: int|
        0 <= i < j < chunks.len() ==> !overlaps(
            #[trigger] chunks[i],
            (#[trigger] chunks[j]).start,
            chunks[j].start + chunks[j].len,
        )
}

/// Chunks written one after the other into a fresh ring are never corrupted:
/// the live chunk with identifier `id` is the `id`-th chunk written, with
/// its bytes and metadata, and no two live chunks share a byte.
pub proof fn lemma_live_chunks_intact<M>(capacity: nat, items: Seq<(Seq<u8>, M)>)
    requires
        all_fit(items, capacity),
    ensures
        write_all(RingModel::<M>::empty(capacity), items).end_id() == items.len(),
        disjoint_chunks(write_all(RingModel::<M>::empty(capacity), items).chunks),
        forall|id: int|
            #[trigger] write_all(RingModel::<M>::empty(capacity), items).is_live(id) ==> {
                &&& write_all(RingModel::<M>::empty(capacity), items).data_of(id) == items[id].0
                &&& write_all(RingModel::<M>::empty(capacity), items).metadata_of(id)
                    == items[id].1
            },
    decreases items.len(),
{
    let m = RingModel::<M>::empty(capacity);
    assert(m.well_formed());
    lemma_write_all_window(m, items);
    if items.len() > 0 {
        let prefix = items.drop_last();
        assert(all_fit(prefix, capacity)) by {
            assert forall|i: int| 0 <= i < prefix.len() implies #[trigger] prefix[i].0.len()
                <= capacity by {
                assert(prefix[i] == items[i]);
            }
        }
        lemma_live_chunks_intact(capacity, prefix);
        lemma_write_all_window(m, prefix);
        let mid = write_all(m, prefix);
        let last = items.last();
        assert(last == items[items.len() - 1]);
        let start = mid.write_start(last.0.len());
        let end = start + last.0.len();
        let k = evicted_count(mid.chunks, start, end);
        lemma_evicted_count(mid.chunks, start, end);
        lemma_after_write_ids(mid, last.0, last.1);
        let r = write_all(m, items);
        assert(r == mid.after_write(last.0, last.1));
        let n = r.chunks.len();
        assert forall|i: int| 0 <= i < n - 1 implies #[trigger] r.chunks[i] == mid.chunks[i + k] by {}
        assert forall|id: int| #[trigger] r.is_live(id) implies {
            &&& r.data_of(id) == items[id].0
            &&& r.metadata_of(id) == items[id].1
        } by {
            if id == r.end_id() - 1 {
                assert(r.chunks[n - 1] == Chunk { start: start, len: last.0.len(), metadata: last.1 });
                assert(r.data_of(id) =~= last.0);
            } else {
                let i = id - r.first_id;
                let c = mid.chunks[i + k];
                assert(mid.is_live(id));
                assert(mid.data_of(id) == items.drop_last()[id].0);
                assert(items.drop_last()[id] == items[id]);
                assert(c.start + c.len <= mid.capacity());
                assert(!overlaps(c, start, end));
                lemma_write_keeps_other_bytes(
                    mid,
                    last.0,
                    last.1,
                    c.start as int,
                    (c.start + c.len) as int,
                );
            }
        }
        assert forall|i: int, j: int| 0 <= i < j < r.chunks.len() implies !overlaps(
            #[trigger] r.chunks[i],
            (#[trigger] r.chunks[j]).start,
            r.chunks[j].start + r.chunks[j].len,
        ) by {
            if j == n - 1 {
                assert(!overlaps(mid.chunks[i + k], start, end));
            } else {
                assert(!overlaps(
                    mid.chunks[i + k],
                    mid.chunks[j + k].start,
                    mid.chunks[j + k].start + mid.chunks[j + k].len,
                ));
            }
        }
    } else {
        assert(m.chunks.len() == 0);
    }
}

} // verus!
