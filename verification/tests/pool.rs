use poolmap::buffer_cache::{Buffer, BufferCache, PoolState};

fn drain(cache: &BufferCache, n: usize, size: usize) -> Vec<Buffer> {
    let mut held = Vec::new();
    for _ in 0..n {
        held.push(cache.take(size));
    }
    held
}

#[test]
fn take_within_alloc_size_has_exact_len_and_capacity() {
    let cache = BufferCache::new(1500, 4);
    for n in [0usize, 1, 700, 1499, 1500] {
        let b = cache.take(n);
        assert_eq!(b.len(), n);
        assert_eq!(b.capacity(), 1500);
        cache.free(b);
    }
}

#[test]
fn take_oversized_allocates_fresh_and_release_is_rejected() {
    let cache = BufferCache::new(100, 2);
    let b = cache.take(250);
    assert_eq!(b.len(), 250);
    assert_eq!(b.capacity(), 250);
    assert_eq!(cache.stored(), 2);
    cache.free(b);
    assert_eq!(cache.stored(), 2);
}

#[test]
fn draining_empties_pool_and_next_take_still_succeeds() {
    let cache = BufferCache::new(64, 3);
    assert_eq!(cache.stored(), 3);
    let held = drain(&cache, 3, 64);
    assert_eq!(cache.stored(), 0);
    let extra = cache.take(40);
    assert_eq!(extra.len(), 40);
    assert_eq!(extra.capacity(), 64);
    drop(held);
}

#[test]
fn release_never_grows_pool_beyond_max_entries() {
    let cache = BufferCache::new(32, 2);
    let a = cache.take(32);
    let b = cache.take(32);
    let c = cache.take(32);
    assert_eq!(cache.stored(), 0);
    cache.free(a);
    cache.free(b);
    assert_eq!(cache.stored(), 2);
    cache.free(c);
    assert_eq!(cache.stored(), 2);
}

#[test]
fn scenario_pool_1500_by_4() {
    let cache = BufferCache::new(1500, 4);
    let mut held = drain(&cache, 4, 1500);
    assert_eq!(cache.stored(), 0);
    let fifth = cache.take(1500);
    assert_eq!(fifth.len(), 1500);
    for b in held.drain(..) {
        cache.free(b);
    }
    assert_eq!(cache.stored(), 4);
    cache.free(fifth);
    assert_eq!(cache.stored(), 4);
}

#[test]
fn cloned_handles_share_one_pool() {
    let cache = BufferCache::new(16, 2);
    let other = cache.clone();
    let a = cache.take(16);
    assert_eq!(other.stored(), 1);
    other.free(a);
    assert_eq!(cache.stored(), 2);
}

#[test]
fn buffer_bytes_can_be_written_and_read() {
    let cache = BufferCache::new(8, 1);
    let mut b = cache.take(4);
    for i in 0..4 {
        b.set_byte(i, (i as u8) + 1);
    }
    for i in 0..4 {
        assert_eq!(b.byte_at(i), (i as u8) + 1);
    }
    cache.free(b);
    let again = cache.take(8);
    for i in 0..4 {
        assert_eq!(again.byte_at(i), (i as u8) + 1);
    }
}

#[test]
fn fresh_oversized_buffer_is_zero_filled() {
    let cache = BufferCache::new(4, 1);
    let b = cache.take(9);
    for i in 0..9 {
        assert_eq!(b.byte_at(i), 0);
    }
}

#[test]
fn pool_state_tracks_counts_exactly() {
    let mut state = PoolState::new(8, 2);
    assert_eq!(state.stored(), 2);
    let a = state.take(5);
    assert_eq!(a.len(), 5);
    assert_eq!(a.capacity(), 8);
    assert_eq!(state.stored(), 1);
    let b = state.take(8);
    let c = state.take(0);
    assert_eq!(c.len(), 0);
    assert_eq!(c.capacity(), 8);
    assert_eq!(state.stored(), 0);
    state.free(a);
    state.free(b);
    assert_eq!(state.stored(), 2);
    state.free(c);
    assert_eq!(state.stored(), 2);
}

#[test]
fn pool_state_discards_capacity_mismatch() {
    let mut state = PoolState::new(8, 2);
    let a = state.take(8);
    assert_eq!(state.stored(), 1);
    let oversized = BufferCache::new(4, 1).take(9);
    state.free(oversized);
    assert_eq!(state.stored(), 1);
    state.free(a);
    assert_eq!(state.stored(), 2);
}

#[test]
fn release_accepts_any_buffer_of_matching_capacity() {
    let first = BufferCache::new(8, 1);
    let second = BufferCache::new(8, 1);
    let drained = first.take(8);
    assert_eq!(first.stored(), 0);
    let foreign = second.take(8);
    first.free(foreign);
    assert_eq!(first.stored(), 1);
    drop(drained);
}
