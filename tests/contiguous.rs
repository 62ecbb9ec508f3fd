use screen_cap::contiguous::{GrowableBuffer, RingBuffer, WriteDataError};

#[test]
fn ring_buffer_add() {
    let chunk: &[u8] = &[1, 2, 3];

    let mut rb = RingBuffer::new(10);
    rb.write(chunk, ()).unwrap();

    assert_eq!(rb.get(0).unwrap().data(), chunk);
}

#[test]
fn ring_buffer_add_2() {
    let chunk1: &[u8] = &[1, 2, 3];
    let chunk2: &[u8] = &[4, 5, 6, 7, 8, 9, 10];

    let mut rb = RingBuffer::new(10);
    rb.write(chunk1, ()).unwrap();
    rb.write(chunk2, ()).unwrap();

    assert_eq!(rb.get(0).unwrap().data(), chunk1);
    assert_eq!(rb.get(1).unwrap().data(), chunk2);
}

#[test]
fn ring_buffer_override() {
    let chunk1: &[u8] = &[1, 2, 3];
    let chunk2: &[u8] = &[4, 5, 6, 7, 8, 9, 10];

    let mut rb = RingBuffer::new(10);
    rb.write(chunk1, ()).unwrap();
    rb.write(chunk2, ()).unwrap();
    rb.write(chunk1, ()).unwrap();

    assert!(rb.get(0).is_none());
    assert_eq!(rb.get(1).unwrap().data(), chunk2);
    assert_eq!(rb.get(2).unwrap().data(), chunk1);
}

#[test]
fn ring_buffer_override_2() {
    let chunk1: &[u8] = &[1, 2, 3];
    let chunk2: &[u8] = &[4, 5, 6, 7, 8, 9, 10];

    let mut rb = RingBuffer::new(10);
    rb.write(chunk1, ()).unwrap();
    rb.write(chunk2, ()).unwrap();
    rb.write(chunk2, ()).unwrap();

    assert!(rb.get(0).is_none());
    assert!(rb.get(1).is_none());
    assert_eq!(rb.get(2).unwrap().data(), chunk2);
}

#[test]
fn ring_buffer_iter() {
    let chunk1: &[u8] = &[1, 2, 3];
    let chunk2: &[u8] = &[4, 5, 6, 7, 8, 9, 10];

    let mut rb = RingBuffer::new(10);
    rb.write(chunk1, ()).unwrap();
    rb.write(chunk2, ()).unwrap();
    rb.write(chunk1, ()).unwrap();

    let mut iter = rb.iter().into_iter();

    assert_eq!(iter.next().unwrap().data(), chunk2);
    assert_eq!(iter.next().unwrap().data(), chunk1);
    assert!(iter.next().is_none());
}

#[test]
fn ring_buffer_bounds() {
    let chunk1: &[u8] = &[1, 2, 3];
    let chunk2: &[u8] = &[4, 5, 6, 7, 8, 9, 10];

    let mut rb = RingBuffer::new(10);
    rb.write(chunk1, ()).unwrap();
    rb.write(chunk2, ()).unwrap();

    let bounds = rb.id_bounds();
    assert_eq!(bounds, (0, 2));
}

#[test]
fn ring_buffer_bounds_2() {
    let chunk: &[u8] = &[1, 2, 3];

    let mut rb = RingBuffer::new(11);

    for _ in 0..10 {
        rb.write(chunk, ()).unwrap();
    }

    let bounds = rb.id_bounds();

    assert!(rb.get(bounds.0).is_some());
    assert!(rb.get(bounds.1 - 1).is_some());
    assert!(rb.get(bounds.0 - 1).is_none());
    assert!(rb.get(bounds.1).is_none());
}

#[test]
fn growable_dump() {
    let chunk: &[u8] = &[1, 2, 3];

    let mut rb = RingBuffer::new(24);

    let mut gb = GrowableBuffer::new();

    (0..8).for_each(|_| {
        gb.write(chunk, ());
    });

    gb.dump_into_ring_buffer(&mut rb).unwrap();

    let (min, max) = rb.id_bounds();

    (min..max).for_each(|id| {
        assert_eq!(rb.get(id).unwrap().data(), &[1, 2, 3]);
    });
}

#[test]
fn ring_buffer_iter_2() {
    let chunk: &[u8] = &[1, 2, 3];

    let mut rb = RingBuffer::new(24);

    let mut gb = GrowableBuffer::new();

    (0..8).for_each(|_| {
        gb.write(chunk, ());
    });

    gb.dump_into_ring_buffer(&mut rb).unwrap();

    for i in rb.iter() {
        assert_eq!(i.data(), &[1, 2, 3]);
    }
}

#[test]
fn growable_buffer_iter() {
    let chunk: &[u8] = &[1, 2, 3, 4, 5];

    let mut gb = GrowableBuffer::new();

    for _ in 0..8 {
        gb.write(chunk, ());
    }

    for i in gb.iter() {
        assert_eq!(i.data(), chunk);
    }
}

#[test]
fn empty_ring_lookup() {
    let rb: RingBuffer<()> = RingBuffer::new(10);
    assert!(rb.get(0).is_none());
    assert_eq!(rb.id_bounds(), (0, 0));
    assert_eq!(rb.len(), 0);
    assert!(rb.is_empty());
    assert!(rb.iter().is_empty());
}

#[test]
fn overwrite_moves_live_window() {
    let mut rb = RingBuffer::new(10);
    rb.write(&[1, 2, 3], 'a').unwrap();
    rb.write(&[4, 5, 6, 7, 8, 9, 10], 'b').unwrap();
    rb.write(&[1, 2, 3], 'c').unwrap();
    assert!(rb.get(0).is_none());
    assert_eq!(rb.get(1).unwrap().data(), &[4, 5, 6, 7, 8, 9, 10]);
    assert_eq!(*rb.get(1).unwrap().metadata(), 'b');
    assert_eq!(rb.get(2).unwrap().data(), &[1, 2, 3]);
    assert_eq!(*rb.get(2).unwrap().metadata(), 'c');
    assert_eq!(rb.id_bounds(), (1, 3));
    assert_eq!(rb.len(), 2);
}

#[test]
fn staged_dump_fills_window() {
    let mut rb = RingBuffer::new(24);
    let mut gb = GrowableBuffer::new();
    for k in 0..8u8 {
        gb.write(&[1, 2, 3], k);
    }
    assert_eq!(gb.len(), 8);
    gb.dump_into_ring_buffer(&mut rb).unwrap();
    assert_eq!(rb.id_bounds(), (0, 8));
    for id in 0..8usize {
        let item = rb.get(id).unwrap();
        assert_eq!(item.data(), &[1, 2, 3]);
        assert_eq!(*item.metadata(), id as u8);
    }
    assert!(gb.is_empty());
    assert!(gb.get(0).is_none());
}

#[test]
fn too_large_leaves_ring_unchanged() {
    let mut rb = RingBuffer::new(4);
    rb.write(&[9, 9], ()).unwrap();
    assert!(matches!(rb.write(&[1, 2, 3, 4, 5], ()), Err(WriteDataError::DataTooLarge)));
    assert_eq!(rb.id_bounds(), (0, 1));
    assert_eq!(rb.get(0).unwrap().data(), &[9, 9]);
    // exactly the capacity is accepted, and evicts what it overwrites
    rb.write(&[1, 2, 3, 4], ()).unwrap();
    assert_eq!(rb.id_bounds(), (1, 2));
    assert_eq!(rb.get(1).unwrap().data(), &[1, 2, 3, 4]);
}

#[test]
fn zero_capacity_ring() {
    let mut rb = RingBuffer::new(0);
    assert_eq!(rb.write(&[1], ()), Err(WriteDataError::DataTooLarge));
    rb.write(&[], ()).unwrap();
    assert_eq!(rb.id_bounds(), (0, 1));
    assert_eq!(rb.get(0).unwrap().data(), &[] as &[u8]);
}

#[test]
fn fitting_writes_all_retained() {
    let mut rb = RingBuffer::new(12);
    let chunks: [&[u8]; 4] = [&[1], &[2, 2], &[3, 3, 3], &[4, 4, 4, 4, 4, 4]];
    for c in chunks.iter() {
        rb.write(c, ()).unwrap();
    }
    assert_eq!(rb.id_bounds(), (0, 4));
    for (id, c) in chunks.iter().enumerate() {
        assert_eq!(rb.get(id).unwrap().data(), *c);
    }
}

#[test]
fn evictions_take_a_prefix_and_ids_stay() {
    let mut rb = RingBuffer::new(6);
    let mut seen = Vec::new();
    for k in 0..20u8 {
        let before = rb.id_bounds();
        rb.write(&[k, k], k).unwrap();
        let after = rb.id_bounds();
        // the new chunk gets the next identifier, never one used before
        assert_eq!(after.1, before.1 + 1);
        assert!(after.0 >= before.0);
        seen.push(after.1 - 1);
        for id in 0..after.0 {
            assert!(rb.get(id).is_none());
        }
        for id in after.0..after.1 {
            let item = rb.get(id).unwrap();
            assert_eq!(*item.metadata() as usize, id);
            assert_eq!(item.data(), &[id as u8, id as u8]);
        }
    }
    let mut sorted = seen.clone();
    sorted.dedup();
    assert_eq!(sorted.len(), seen.len());
}

#[test]
fn dump_stops_at_too_large_chunk() {
    let mut rb = RingBuffer::new(3);
    let mut gb = GrowableBuffer::new();
    gb.write(&[1], 0);
    gb.write(&[2, 2, 2, 2], 1);
    gb.write(&[3], 2);
    assert_eq!(gb.dump_into_ring_buffer(&mut rb), Err(WriteDataError::DataTooLarge));
    assert_eq!(rb.id_bounds(), (0, 1));
    assert_eq!(rb.get(0).unwrap().data(), &[1]);
    assert!(gb.is_empty());
    // the stage is usable again afterwards
    gb.write(&[7, 8], 5);
    assert_eq!(gb.get(0).unwrap().data(), &[7, 8]);
    assert_eq!(*gb.get(0).unwrap().metadata(), 5);
}

#[test]
fn reader_resumes_from_last_seen_id() {
    let mut rb = RingBuffer::new(6);
    for k in 0..3u8 {
        rb.write(&[k, k], k).unwrap();
    }
    let all: Vec<u8> = rb.chunks_from(0).iter().map(|i| *i.metadata()).collect();
    assert_eq!(all, vec![0, 1, 2]);
    let rest: Vec<u8> = rb.chunks_from(2).iter().map(|i| *i.metadata()).collect();
    assert_eq!(rest, vec![2]);
    assert!(rb.chunks_from(3).is_empty());
    assert!(rb.chunks_from(100).is_empty());
    // ids 0 and 1 get overwritten: a reader that saw only id 0 resumes at the oldest live one
    rb.write(&[3, 3, 3, 3], 3).unwrap();
    assert_eq!(rb.id_bounds(), (2, 4));
    let resumed: Vec<u8> = rb.chunks_from(1).iter().map(|i| *i.metadata()).collect();
    assert_eq!(resumed, vec![2, 3]);
    assert_eq!(rb.chunks_from(1)[1].data(), &[3, 3, 3, 3]);
}

#[test]
fn overwritten_chunk_behind_front_is_evicted() {
    let mut rb = RingBuffer::new(10);
    rb.write(&[1; 7], 0).unwrap();
    rb.write(&[2; 2], 1).unwrap();
    rb.write(&[3; 4], 2).unwrap();
    // live: id 1 at bytes 7..9, id 2 at bytes 0..4
    assert_eq!(rb.id_bounds(), (1, 3));
    rb.write(&[4; 7], 3).unwrap();
    // bytes 0..7 overwrite id 2, so it goes, and id 1 in front of it with it
    assert_eq!(rb.id_bounds(), (3, 4));
    assert!(rb.get(2).is_none());
    assert_eq!(rb.get(3).unwrap().data(), &[4; 7]);
}

#[test]
fn live_chunks_keep_their_bytes() {
    let mut rb = RingBuffer::new(37);
    let mut written: Vec<Vec<u8>> = Vec::new();
    let mut seed: u32 = 12345;
    for n in 0..500u32 {
        seed = seed.wrapping_mul(1103515245).wrapping_add(12345);
        let len = (seed >> 16) as usize % 38;
        let chunk: Vec<u8> = (0..len).map(|k| (n as usize * 31 + k) as u8).collect();
        rb.write(&chunk, n).unwrap();
        written.push(chunk);
        let (min, max) = rb.id_bounds();
        assert_eq!(max, written.len());
        for id in min..max {
            let item = rb.get(id).unwrap();
            assert_eq!(item.data(), &written[id][..]);
            assert_eq!(*item.metadata() as usize, id);
        }
    }
}
