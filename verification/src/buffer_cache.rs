//! A bounded, shared pool of reusable byte buffers of one fixed capacity.
//!
//! Every buffer the pool owns has capacity exactly `alloc_size`, and the pool
//! never holds more than `max_entries` of them.  Acquiring a buffer pops one
//! from the pool (or allocates a fresh zero-filled one when the pool is empty
//! or the request is oversized); releasing pushes it back, unless its capacity
//! does not match or the pool is already full, in which case it is silently
//! dropped.

use vstd::pervasive::VecAdditionalExecFns;
use vstd::prelude::*;

verus! {

/// An owned byte buffer with a logical length tracked separately from its
/// backing storage.  The backing storage is fully materialized, so the
/// buffer's capacity is the length of the backing vector; the logical length
/// never exceeds it.
pub struct Buffer {
    data: Vec<u8>,
    len: usize,
}

impl Buffer {
    /// The bytes of the backing storage, capacity many.
    pub closed spec fn spec_data(self) -> Seq<u8> {
        self.data@
    }

    /// The capacity: how many bytes the backing storage holds.
    pub closed spec fn spec_capacity(self) -> nat {
        self.data@.len()
    }

    /// The logical length.
    pub closed spec fn spec_len(self) -> nat {
        self.len as nat
    }

    /// A buffer is well formed when its logical length fits its capacity,
    /// which is exactly the number of backing bytes.
    pub open spec fn wf(self) -> bool {
        &&& self.spec_len() <= self.spec_capacity()
        &&& self.spec_capacity() == self.spec_data().len()
    }

    /// The logical length of the buffer.
    pub fn len(&self) -> (r: usize)
        ensures
            r as nat == self.spec_len(),
    {
        self.len
    }

    /// The capacity of the buffer's backing storage.
    pub fn capacity(&self) -> (r: usize)
        ensures
            r as nat == self.spec_capacity(),
    {
        self.data.len()
    }

    /// The byte at index `i` of the logical contents.
    pub fn byte_at(&self, i: usize) -> (r: u8)
        requires
            self.wf(),
            i < self.spec_len(),
        ensures
            r == self.spec_data()[i as int],
    {
        self.data[i]
    }

    /// Store `b` at index `i` of the logical contents.
    pub fn set_byte(&mut self, i: usize, b: u8)
        requires
            old(self).wf(),
            i < old(self).spec_len(),
        ensures
            final(self).wf(),
            final(self).spec_len() == old(self).spec_len(),
            final(self).spec_capacity() == old(self).spec_capacity(),
            final(self).spec_data() == old(self).spec_data().update(i as int, b),
    {
        self.data.set(i, b);
    }
}

/// The exclusively owned state of a buffer pool: the recyclable buffers
/// together with the two parameters the pool was constructed with.  All of
/// the pool's decisions (pop or allocate, capacity check, capacity bound)
/// live here; [`BufferCache`] only wraps this state in a shared lock.
pub struct PoolState {
    entries: Vec<Vec<u8>>,
    alloc_size: usize,
    max_entries: usize,
}

impl PoolState {
    /// The fixed capacity every pooled buffer has.
    pub closed spec fn spec_alloc_size(self) -> nat {
        self.alloc_size as nat
    }

    /// The bound on how many buffers the pool stores.
    pub closed spec fn spec_max_entries(self) -> nat {
        self.max_entries as nat
    }

    /// The stored buffers, oldest first.
    pub closed spec fn spec_entries(self) -> Seq<Seq<u8>> {
        self.entries@.map_values(|v: Vec<u8>| v@)
    }

    /// The number of buffers currently stored.
    pub open spec fn spec_stored(self) -> nat {
        self.spec_entries().len()
    }

    /// Every stored buffer has length exactly `alloc_size`, and the pool
    /// never stores more than `max_entries` of them.
    pub open spec fn wf(self) -> bool {
        &&& self.spec_stored() <= self.spec_max_entries()
        &&& forall|i: int|
            0 <= i < self.spec_entries().len() ==> (#[trigger] self.spec_entries()[i]).len()
                == self.spec_alloc_size()
    }

    /// A pool state pre-populated with `max_entries` zero-filled buffers of
    /// length `alloc_size` each.
    pub fn new(alloc_size: usize, max_entries: usize) -> (s: Self)
        ensures
            s.wf(),
            s.spec_alloc_size() == alloc_size,
            s.spec_max_entries() == max_entries,
            s.spec_stored() == max_entries,
            forall|i: int, j: int|
                0 <= i < s.spec_entries().len() && 0 <= j < s.spec_entries()[i].len()
                    ==> #[trigger] s.spec_entries()[i][j] == 0u8,
    {
        let mut entries: Vec<Vec<u8>> = Vec::new();
        let mut i: usize = 0;
        while i < max_entries
            invariant
                i <= max_entries,
                entries@.len() == i,
                forall|j: int| 0 <= j < i ==> (#[trigger] entries@[j])@.len() == alloc_size,
                forall|j: int, b: int|
                    0 <= j < i && 0 <= b < entries@[j]@.len() ==> #[trigger] entries@[j]@[b]
                        == 0u8,
            decreases max_entries - i,
        {
            entries.push(zeroed_vec(alloc_size));
            i += 1;
        }
        let s = PoolState { entries, alloc_size, max_entries };
        proof {
            assert forall|k: int| 0 <= k < s.spec_entries().len() implies (
            #[trigger] s.spec_entries()[k]).len() == s.spec_alloc_size() by {
                assert(s.spec_entries()[k] == s.entries@[k]@);
            }
            assert forall|k: int, b: int|
                0 <= k < s.spec_entries().len() && 0 <= b < s.spec_entries()[k].len() implies
            #[trigger] s.spec_entries()[k][b] == 0u8 by {
                assert(s.spec_entries()[k] == s.entries@[k]@);
            }
        }
        s
    }

    /// Serve a request of `n` bytes, `n` at most `alloc_size`: pop a stored
    /// buffer if one is there, otherwise allocate a fresh zero-filled one,
    /// and set its logical length to `n`.
    pub fn take(&mut self, n: usize) -> (b: Buffer)
        requires
            old(self).wf(),
            n <= old(self).spec_alloc_size(),
        ensures
            final(self).wf(),
            final(self).spec_alloc_size() == old(self).spec_alloc_size(),
            final(self).spec_max_entries() == old(self).spec_max_entries(),
            b.wf(),
            b.spec_len() == n,
            b.spec_capacity() == old(self).spec_alloc_size(),
            old(self).spec_stored() > 0 ==> {
                &&& final(self).spec_entries() == old(self).spec_entries().drop_last()
                &&& b.spec_data() == old(self).spec_entries().last()
            },
            old(self).spec_stored() == 0 ==> {
                &&& final(self).spec_entries() == old(self).spec_entries()
                &&& forall|i: int| 0 <= i < b.spec_data().len() ==> b.spec_data()[i] == 0u8
            },
    {
        let data = match self.entries.pop() {
            Some(d) => {
                proof {
                    assert(old(self).spec_entries()[old(self).spec_entries().len() - 1] == d@);
                    assert(self.spec_entries() =~= old(self).spec_entries().drop_last());
                }
                d
            },
            None => {
                proof {
                    assert(self.spec_entries() =~= old(self).spec_entries());
                }
                zeroed_vec(self.alloc_size)
            },
        };
        Buffer { data, len: n }
    }

    /// Reclaim a buffer: silently discard it when its capacity is not
    /// `alloc_size` or the pool is already full, otherwise store its backing
    /// bytes again.
    pub fn free(&mut self, b: Buffer)
        requires
            old(self).wf(),
        ensures
            final(self).wf(),
            final(self).spec_alloc_size() == old(self).spec_alloc_size(),
            final(self).spec_max_entries() == old(self).spec_max_entries(),
            final(self).spec_stored() <= final(self).spec_max_entries(),
            b.spec_capacity() != old(self).spec_alloc_size() ==> *final(self) == *old(self),
            b.spec_capacity() == old(self).spec_alloc_size() && old(self).spec_stored() < old(
                self,
            ).spec_max_entries() ==> final(self).spec_entries() == old(
                self,
            ).spec_entries().push(b.spec_data()),
            b.spec_capacity() == old(self).spec_alloc_size() && old(self).spec_stored() == old(
                self,
            ).spec_max_entries() ==> final(self).spec_entries() == old(self).spec_entries(),
    {
        if b.data.len() != self.alloc_size {
            return ;
        }
        if self.entries.len() < self.max_entries {
            self.entries.push(b.data);
            proof {
                assert(self.spec_entries() =~= old(self).spec_entries().push(b.spec_data()));
            }
        }
    }

    /// The number of buffers currently stored.
    pub fn stored(&self) -> (r: usize)
        ensures
            r as nat == self.spec_stored(),
    {
        self.entries.len()
    }
}

/// A zero-filled vector of the given length.
fn zeroed_vec(n: usize) -> (v: Vec<u8>)
    ensures
        v@.len() == n,
        forall|i: int| 0 <= i < n ==> v@[i] == 0u8,
{
    let mut v: Vec<u8> = Vec::new();
    let mut i: usize = 0;
    while i < n
        invariant
            i <= n,
            v@.len() == i,
            forall|j: int| 0 <= j < i ==> v@[j] == 0u8,
        decreases n - i,
    {
        v.push(0u8);
        i += 1;
    }
    v
}

/// The invariant the pool's lock maintains on the guarded state: it is well
/// formed and was built with the given parameters.
pub open spec fn pool_pred(alloc_size: usize, max_entries: usize) -> spec_fn(PoolState) -> bool {
    |s: PoolState|
        {
            &&& s.wf()
            &&& s.spec_alloc_size() == alloc_size
            &&& s.spec_max_entries() == max_entries
        }
}

/// A bounded, shared pool of reusable byte buffers of one fixed capacity.
///
/// The pool state lives behind a reference-counted, lock-guarded handle:
/// every operation acquires the lock, runs one [`PoolState`] method on the
/// guarded state, and releases the lock, so the state always satisfies
/// [`pool_pred`].  The handle is cheap to clone and meant to be shared
/// across many concurrent callers; all clones draw from and release to the
/// same pool.
pub struct BufferCache {
    lock: std::sync::Arc<vstd::rwlock::RwLock<PoolState, spec_fn(PoolState) -> bool>>,
    alloc_size: usize,
    max_entries: usize,
}

impl BufferCache {
    /// The fixed capacity every pooled buffer has.
    pub closed spec fn spec_alloc_size(self) -> nat {
        self.alloc_size as nat
    }

    /// The bound on how many buffers the pool stores.
    pub closed spec fn spec_max_entries(self) -> nat {
        self.max_entries as nat
    }

    /// The handle's lock guards a well-formed pool state built with the
    /// handle's own parameters.
    pub closed spec fn wf(self) -> bool {
        (*self.lock).pred() == pool_pred(self.alloc_size, self.max_entries)
    }

    /// A pool pre-populated with `max_entries` zero-filled buffers of
    /// capacity `alloc_size` each.
    pub fn new(alloc_size: usize, max_entries: usize) -> (c: Self)
        ensures
            c.wf(),
            c.spec_alloc_size() == alloc_size,
            c.spec_max_entries() == max_entries,
    {
        let state = PoolState::new(alloc_size, max_entries);
        let lock = vstd::rwlock::RwLock::new(state, Ghost(pool_pred(alloc_size, max_entries)));
        BufferCache { lock: std::sync::Arc::new(lock), alloc_size, max_entries }
    }

    /// An owned buffer of logical length exactly `requested_size`.
    ///
    /// A request of more than `alloc_size` cannot be served from the pool:
    /// it gets a fresh zero-filled buffer of capacity `requested_size`,
    /// which a later [`BufferCache::free`] will silently discard.  Any other
    /// request is served from the pool (or by a fresh allocation when the
    /// pool is momentarily empty) and has capacity exactly `alloc_size`.
    pub fn take(&self, requested_size: usize) -> (b: Buffer)
        requires
            self.wf(),
        ensures
            b.wf(),
            b.spec_len() == requested_size,
            requested_size <= self.spec_alloc_size() ==> b.spec_capacity()
                == self.spec_alloc_size(),
            requested_size > self.spec_alloc_size() ==> {
                &&& b.spec_capacity() == requested_size
                &&& forall|i: int| 0 <= i < b.spec_data().len() ==> b.spec_data()[i] == 0u8
            },
    {
        if requested_size > self.alloc_size {
            return Buffer { data: zeroed_vec(requested_size), len: requested_size };
        }
        let (mut state, write_handle) = self.lock.acquire_write();
        let b = state.take(requested_size);
        write_handle.release_write(state);
        b
    }

    /// Return a buffer to the pool.  A buffer whose capacity is not
    /// `alloc_size`, or one arriving while the pool already stores
    /// `max_entries` buffers, is silently dropped; the stored count never
    /// exceeds `max_entries` either way.
    pub fn free(&self, buffer: Buffer)
        requires
            self.wf(),
    {
        let (mut state, write_handle) = self.lock.acquire_write();
        state.free(buffer);
        write_handle.release_write(state);
    }

    /// The number of buffers the pool stores at this instant; other holders
    /// of the same pool may change it at any time.  It never exceeds
    /// `max_entries`.
    pub fn stored(&self) -> (r: usize)
        requires
            self.wf(),
        ensures
            r as nat <= self.spec_max_entries(),
    {
        let read_handle = self.lock.acquire_read();
        let r = read_handle.borrow().stored();
        read_handle.release_read();
        r
    }
}

impl Clone for BufferCache {
    /// Another handle to the same pool.
    fn clone(&self) -> (c: Self)
        ensures
            c.wf() == self.wf(),
            c.spec_alloc_size() == self.spec_alloc_size(),
            c.spec_max_entries() == self.spec_max_entries(),
    {
        BufferCache {
            lock: self.lock.clone(),
            alloc_size: self.alloc_size,
            max_entries: self.max_entries,
        }
    }
}

} // verus!
