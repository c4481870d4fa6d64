//! The registry of per-thread sub-pools, and the buffer handles it hands out.
//!
//! Threads are identified by explicit keys, and the shared-ownership structure
//! of the registry (owners and handles each hold a strong reference, the
//! registry holds only weak references to the sub-pools) is carried as explicit
//! reference counts, so that every lifetime decision is a checked state change.

use vstd::prelude::*;

verus! {

use crate::queues::queue_ids;
use crate::queues::queue_len;
use crate::queues::queue_new;
use crate::queues::queue_pop;
use crate::queues::queue_push;

broadcast use vstd::set::group_set_axioms, vstd::map::group_map_axioms;

use vstd::set_lib::lemma_len_subset;

/// Classification of a command buffer. Primary and secondary buffers are never
/// interchangeable and recycle through separate queues.
#[derive(Clone, Copy, PartialEq, Eq, Structural, Debug)]
pub enum CommandBufferLevel {
    Primary,
    Secondary,
}

/// The one recoverable failure of allocation: the native layer has no memory
/// left for more buffers.
#[derive(Clone, Copy, PartialEq, Eq, Structural, Debug)]
pub enum OomError {
    OutOfDeviceMemory,
}

/// Where one issued native handle currently is: held by an outstanding
/// allocation, or parked in its origin sub-pool's recycle queue.
enum HandleSpot {
    Outstanding { tid: u64, level: CommandBufferLevel },
    Parked { tid: u64, level: CommandBufferLevel },
}

/// One calling thread's private sub-pool: the two lock-free recycle queues of
/// retired native handles, one per buffer level. The native pool's allocation
/// state is carried by the registry's fresh-handle mark and capacity.
struct ThreadSubPool {
    primary: crossbeam_queue::SegQueue<u64>,
    secondary: crossbeam_queue::SegQueue<u64>,
}

/// The registry's record for one thread: a weak back-reference to that
/// thread's sub-pool. `sub` is `None` once the sub-pool was reclaimed because
/// its last strong reference (held by outstanding handles) went away.
struct PerThreadEntry {
    tid: u64,
    /// Strong references to the sub-pool: one per outstanding handle.
    strong: u64,
    /// The native ids of exactly those outstanding handles.
    live_ids: Ghost<Set<u64>>,
    sub: Option<ThreadSubPool>,
}

/// A finished, freely transferable buffer handle. Its destruction must route
/// the native handle back to the recycle queue of its origin sub-pool, which
/// `StandardCommandPool::recycle` does, consuming the handle exactly once.
#[derive(Debug)]
pub struct StandardCommandPoolAlloc {
    cmd: u64,
    origin: u64,
    level: CommandBufferLevel,
    queue_family: u32,
    device: u64,
}

/// A buffer handle that is still being recorded: bound to the thread that
/// allocated it until `into_alloc` finishes it into a transferable handle.
#[derive(Debug)]
pub struct StandardCommandPoolBuilder {
    inner: StandardCommandPoolAlloc,
}

spec fn tids_distinct(s: Seq<PerThreadEntry>) -> bool {
    forall|i: int, j: int| 0 <= i < j < s.len() ==> s[i].tid != s[j].tid
}

spec fn has_tid(s: Seq<PerThreadEntry>, t: u64) -> bool {
    exists|i: int| 0 <= i < s.len() && s[i].tid == t
}

spec fn tid_idx(s: Seq<PerThreadEntry>, t: u64) -> int {
    choose|i: int| 0 <= i < s.len() && s[i].tid == t
}

/// The map records `h` as outstanding from thread `t`.
spec fn spot_out_for(m: Map<u64, HandleSpot>, h: u64, t: u64) -> bool {
    m.dom().contains(h) && (m[h] matches HandleSpot::Outstanding { tid, .. } && tid == t)
}

/// The map records `h` as outstanding from some thread.
spec fn spot_out(m: Map<u64, HandleSpot>, h: u64) -> bool {
    m.dom().contains(h) && m[h] is Outstanding
}

spec fn spot_tid(m: Map<u64, HandleSpot>, h: u64) -> u64 {
    match m[h] {
        HandleSpot::Outstanding { tid, .. } => tid,
        HandleSpot::Parked { tid, .. } => tid,
    }
}

/// Every id in a recycle queue is recorded as parked there, and no id repeats.
spec fn queue_inv(m: Map<u64, HandleSpot>, t: u64, l: CommandBufferLevel, q: Seq<u64>) -> bool {
    &&& forall|j: int|
        0 <= j < q.len() ==> m.dom().contains(#[trigger] q[j]) && m[q[j]] == (HandleSpot::Parked {
            tid: t,
            level: l,
        })
    &&& forall|j1: int, j2: int| 0 <= j1 < j2 < q.len() ==> q[j1] != q[j2]
}

spec fn entry_inv(m: Map<u64, HandleSpot>, e: PerThreadEntry) -> bool {
    &&& e.live_ids@.finite()
    &&& e.strong == e.live_ids@.len()
    &&& forall|h: u64| e.live_ids@.contains(h) <==> spot_out_for(m, h, e.tid)
    &&& (e.sub is Some <==> e.strong > 0)
    &&& match e.sub {
        Some(sp) => queue_inv(m, e.tid, CommandBufferLevel::Primary, queue_ids(sp.primary))
            && queue_inv(m, e.tid, CommandBufferLevel::Secondary, queue_ids(sp.secondary)),
        None => true,
    }
}

impl PerThreadEntry {
    spec fn is_live(self) -> bool {
        self.sub is Some
    }

    spec fn queue_seq(self, level: CommandBufferLevel) -> Seq<u64> {
        match self.sub {
            Some(sp) => match level {
                CommandBufferLevel::Primary => queue_ids(sp.primary),
                CommandBufferLevel::Secondary => queue_ids(sp.secondary),
            },
            None => Seq::empty(),
        }
    }
}

/// The registry applications hold and share: maps each calling thread to a
/// weak reference to that thread's sub-pool, and creates sub-pools lazily.
pub struct StandardCommandPool {
    device: u64,
    queue_family: u32,
    per_thread: Vec<PerThreadEntry>,
    /// Strong references held by external owners of the registry.
    owner_refs: u64,
    /// Strong references held through outstanding handles.
    handle_refs: u64,
    /// The next native handle id the native layer would create.
    fresh_mark: u64,
    /// How many more native buffers the native layer can create.
    native_capacity: u64,
    /// Where every issued native handle currently is.
    spots: Ghost<Map<u64, HandleSpot>>,
    /// The ids of all outstanding handles, over all threads.
    live_set: Ghost<Set<u64>>,
}

impl StandardCommandPoolAlloc {
    /// The native handle this allocation owns.
    pub closed spec fn id(self) -> u64 {
        self.cmd
    }

    /// The thread whose sub-pool the handle was allocated from.
    pub closed spec fn origin_thread(self) -> u64 {
        self.origin
    }

    /// The buffer level the handle was allocated at.
    pub closed spec fn buffer_level(self) -> CommandBufferLevel {
        self.level
    }

    pub closed spec fn family_id(self) -> u32 {
        self.queue_family
    }

    pub closed spec fn device_id(self) -> u64 {
        self.device
    }

    /// Returns the underlying native handle, with no ownership transfer.
    pub fn inner(&self) -> (r: u64)
        ensures
            r == self.id(),
    {
        self.cmd
    }

    /// Returns the queue family the origin pool is bound to.
    pub fn queue_family(&self) -> (r: u32)
        ensures
            r == self.family_id(),
    {
        self.queue_family
    }

    /// Returns the device the origin pool belongs to.
    pub fn device(&self) -> (r: u64)
        ensures
            r == self.device_id(),
    {
        self.device
    }
}

impl StandardCommandPoolBuilder {
    /// The finished handle this builder will turn into.
    pub closed spec fn finished(self) -> StandardCommandPoolAlloc {
        self.inner
    }

    /// Returns the underlying native handle for command recording.
    pub fn inner(&self) -> (r: u64)
        ensures
            r == self.finished().id(),
    {
        self.inner.inner()
    }

    /// Consumes the builder and returns the wrapped handle unchanged: the sole
    /// transition from the thread-bound state into the transferable state.
    pub fn into_alloc(self) -> (r: StandardCommandPoolAlloc)
        ensures
            r == self.finished(),
    {
        self.inner
    }

    pub fn queue_family(&self) -> (r: u32)
        ensures
            r == self.finished().family_id(),
    {
        self.inner.queue_family()
    }

    pub fn device(&self) -> (r: u64)
        ensures
            r == self.finished().device_id(),
    {
        self.inner.device()
    }
}

impl StandardCommandPool {
    pub closed spec fn device_id(self) -> u64 {
        self.device
    }

    pub closed spec fn family_id(self) -> u32 {
        self.queue_family
    }

    /// Strong references held by external owners.
    pub closed spec fn owners(self) -> u64 {
        self.owner_refs
    }

    /// Outstanding handles; each holds a strong reference to the registry.
    pub closed spec fn outstanding(self) -> u64 {
        self.handle_refs
    }

    /// The registry stays alive while any strong reference exists, whether an
    /// owner's or one held through an outstanding handle.
    pub open spec fn alive(self) -> bool {
        self.owners() > 0 || self.outstanding() > 0
    }

    /// The next native handle id the native layer would create.
    pub closed spec fn fresh_at(self) -> u64 {
        self.fresh_mark
    }

    /// How many more native buffers the native layer can create.
    pub closed spec fn capacity(self) -> u64 {
        self.native_capacity
    }

    /// Number of per-thread records in the mapping, stale ones included.
    pub closed spec fn entry_count(self) -> nat {
        self.per_thread@.len()
    }

    /// The mapping has a record for thread `t` (live or stale).
    pub closed spec fn has_thread(self, t: u64) -> bool {
        has_tid(self.per_thread@, t)
    }

    /// The mapping's record for thread `t` still resolves to a live sub-pool.
    pub closed spec fn thread_live(self, t: u64) -> bool {
        has_tid(self.per_thread@, t) && self.per_thread@[tid_idx(self.per_thread@, t)].is_live()
    }

    /// Outstanding handles allocated from thread `t`'s sub-pool.
    pub closed spec fn strong_of(self, t: u64) -> u64 {
        if has_tid(self.per_thread@, t) {
            self.per_thread@[tid_idx(self.per_thread@, t)].strong
        } else {
            0
        }
    }

    /// The recycle queue of thread `t` at `level`, front first; empty when the
    /// sub-pool is absent or reclaimed.
    pub closed spec fn recycle_queue(self, t: u64, level: CommandBufferLevel) -> Seq<u64> {
        if has_tid(self.per_thread@, t) {
            self.per_thread@[tid_idx(self.per_thread@, t)].queue_seq(level)
        } else {
            Seq::empty()
        }
    }

    /// The registry issued native handle `id` from thread `t` at `l`, and it is
    /// currently outstanding.
    pub closed spec fn owns_id(self, id: u64, t: u64, l: CommandBufferLevel) -> bool {
        self.spots@.dom().contains(id) && self.spots@[id] == (HandleSpot::Outstanding {
            tid: t,
            level: l,
        })
    }

    /// `a` is an outstanding handle of this registry, with fields as issued.
    pub open spec fn owns(self, a: StandardCommandPoolAlloc) -> bool {
        &&& self.owns_id(a.id(), a.origin_thread(), a.buffer_level())
        &&& a.family_id() == self.family_id()
        &&& a.device_id() == self.device_id()
    }

    pub closed spec fn wf(self) -> bool {
        let m = self.spots@;
        let s = self.per_thread@;
        &&& tids_distinct(s)
        &&& forall|i: int| 0 <= i < s.len() ==> entry_inv(m, #[trigger] s[i])
        &&& m.dom().finite()
        &&& forall|h: u64| m.dom().contains(h) ==> h < self.fresh_mark
        &&& self.live_set@.finite()
        &&& forall|h: u64| self.live_set@.contains(h) <==> spot_out(m, h)
        &&& self.handle_refs == self.live_set@.len()
        &&& self.fresh_mark + self.native_capacity <= u64::MAX
        &&& forall|h: u64| #[trigger] spot_out(m, h) ==> has_tid(s, spot_tid(m, h))
    }

    /// Builds a new registry for one (device, queue family) pair, with the
    /// number of native buffers the native layer can still create.
    pub fn new_with_capacity(device: u64, queue_family: u32, capacity: u64) -> (r:
        StandardCommandPool)
        ensures
            r.wf(),
            r.device_id() == device,
            r.family_id() == queue_family,
            r.owners() == 1,
            r.outstanding() == 0,
            r.fresh_at() == 0,
            r.capacity() == capacity,
            r.entry_count() == 0,
            forall|t: u64| !r.has_thread(t),
            forall|id: u64, t: u64, l: CommandBufferLevel| !r.owns_id(id, t, l),
    {
        StandardCommandPool {
            device,
            queue_family,
            per_thread: Vec::new(),
            owner_refs: 1,
            handle_refs: 0,
            fresh_mark: 0,
            native_capacity: capacity,
            spots: Ghost(Map::empty()),
            live_set: Ghost(Set::empty()),
        }
    }

    /// Builds a new registry whose native layer is taken as never running out.
    pub fn new(device: u64, queue_family: u32) -> (r: StandardCommandPool)
        ensures
            r.wf(),
            r.device_id() == device,
            r.family_id() == queue_family,
            r.owners() == 1,
            r.outstanding() == 0,
            r.fresh_at() == 0,
            r.capacity() == u64::MAX,
            r.entry_count() == 0,
            forall|t: u64| !r.has_thread(t),
            forall|id: u64, t: u64, l: CommandBufferLevel| !r.owns_id(id, t, l),
    {
        Self::new_with_capacity(device, queue_family, u64::MAX)
    }

    /// Records one more external owner of the registry, as cloning a shared
    /// reference to it would.
    pub fn add_owner(&mut self)
        requires
            old(self).wf(),
            old(self).owners() >= 1,
            old(self).owners() < u64::MAX,
        ensures
            final(self).wf(),
            final(self).owners() == old(self).owners() + 1,
            unchanged_but_owners(*old(self), *final(self)),
    {
        self.owner_refs = self.owner_refs + 1;
    }

    /// Releases one external owner's reference, as dropping a shared reference
    /// to the registry would. The registry is destroyed only when no owner and
    /// no outstanding handle keeps it alive.
    pub fn drop_owner(&mut self)
        requires
            old(self).wf(),
            old(self).owners() >= 1,
        ensures
            final(self).wf(),
            final(self).owners() == old(self).owners() - 1,
            unchanged_but_owners(*old(self), *final(self)),
    {
        self.owner_refs = self.owner_refs - 1;
    }

    /// Whether a weak reference to the registry would still resolve: true
    /// while any owner or any outstanding handle holds a strong reference.
    pub fn upgrade_weak(&self) -> (r: bool)
        ensures
            r == self.alive(),
    {
        self.owner_refs > 0 || self.handle_refs > 0
    }

    /// Looks up the queue family the registry was built for.
    pub fn queue_family(&self) -> (r: u32)
        ensures
            r == self.family_id(),
    {
        self.queue_family
    }

    /// The device the registry was built for.
    pub fn device(&self) -> (r: u64)
        ensures
            r == self.device_id(),
    {
        self.device
    }

    /// Number of per-thread records currently in the mapping, stale ones
    /// included; purged back down by the next allocation call.
    pub fn thread_count(&self) -> (r: usize)
        ensures
            r == self.entry_count(),
    {
        self.per_thread.len()
    }

    /// Whether the mapping still holds a record for thread `t`, live or stale.
    pub fn has_thread_entry(&self, t: u64) -> (r: bool)
        requires
            self.wf(),
        ensures
            r == self.has_thread(t),
    {
        let ghost s = self.per_thread@;
        let mut i: usize = 0;
        while i < self.per_thread.len()
            invariant
                self.per_thread@ == s,
                0 <= i <= s.len(),
                forall|j: int| 0 <= j < i ==> s[j].tid != t,
            decreases s.len() - i,
        {
            if self.per_thread[i].tid == t {
                return true;
            }
            i = i + 1;
        }
        false
    }

    /// Removes every record whose weak back-reference no longer resolves, that
    /// is whose sub-pool was reclaimed when its last outstanding handle went
    /// away. Live records are kept untouched.
    fn purge_stale(&mut self)
        requires
            old(self).wf(),
        ensures
            final(self).wf(),
            final(self).spots == old(self).spots,
            final(self).live_set == old(self).live_set,
            final(self).owner_refs == old(self).owner_refs,
            final(self).handle_refs == old(self).handle_refs,
            final(self).fresh_mark == old(self).fresh_mark,
            final(self).native_capacity == old(self).native_capacity,
            final(self).device == old(self).device,
            final(self).queue_family == old(self).queue_family,
            forall|j: int|
                0 <= j < final(self).per_thread@.len() ==> #[trigger] final(self).per_thread@[j].strong > 0,
            forall|t: u64| #[trigger] final(self).has_thread(t) == old(self).thread_live(t),
            forall|t: u64| #[trigger] final(self).thread_live(t) == old(self).thread_live(t),
            forall|t: u64| #[trigger] final(self).strong_of(t) == old(self).strong_of(t),
            forall|t: u64, l: CommandBufferLevel| #[trigger] final(self).recycle_queue(t, l) == old(
                self,
            ).recycle_queue(t, l),
    {
        let ghost s0 = self.per_thread@;
        let ghost m0 = self.spots@;
        let mut i: usize = 0;
        while i < self.per_thread.len()
            invariant
                self.wf(),
                self.spots == old(self).spots,
                self.live_set == old(self).live_set,
                self.owner_refs == old(self).owner_refs,
                self.handle_refs == old(self).handle_refs,
                self.fresh_mark == old(self).fresh_mark,
                self.native_capacity == old(self).native_capacity,
                self.device == old(self).device,
                self.queue_family == old(self).queue_family,
                0 <= i <= self.per_thread@.len(),
                forall|j: int| 0 <= j < i ==> #[trigger] self.per_thread@[j].strong > 0,
                forall|t: u64|
                    #[trigger] has_tid(self.per_thread@, t) ==> has_tid(s0, t)
                        && self.per_thread@[tid_idx(self.per_thread@, t)] == s0[tid_idx(s0, t)],
                forall|t: u64|
                    has_tid(s0, t) && s0[tid_idx(s0, t)].strong > 0 ==> #[trigger] has_tid(
                        self.per_thread@,
                        t,
                    ),
            decreases self.per_thread@.len() - i,
        {
            if self.per_thread[i].strong == 0 {
                let ghost v0 = self.per_thread@;
                let ghost m = self.spots@;
                let stale = self.per_thread.remove(i);
                proof {
                    let v1 = self.per_thread@;
                    let ii = i as int;
                    assert(v1 == v0.remove(ii));
                    assert(forall|j: int| 0 <= j < ii ==> v1[j] == v0[j]);
                    assert(forall|j: int| ii <= j < v1.len() ==> v1[j] == v0[j + 1]);
                    assert(tids_distinct(v1));
                    assert(forall|j: int|
                        0 <= j < v1.len() ==> entry_inv(m, #[trigger] v1[j]));
                    // a surviving witness for every thread that still has one
                    assert forall|t: u64| #[trigger] has_tid(v1, t) implies has_tid(s0, t)
                        && v1[tid_idx(v1, t)] == s0[tid_idx(s0, t)] by {
                        let w1 = tid_idx(v1, t);
                        assert(0 <= w1 < v1.len() && v1[w1].tid == t);
                        let w0: int = if w1 < ii {
                            w1
                        } else {
                            w1 + 1
                        };
                        assert(v0[w0] == v1[w1]);
                        lemma_tid_idx(v0, t, w0);
                        lemma_tid_idx(v1, t, w1);
                    };
                    assert forall|t: u64|
                        has_tid(s0, t) && s0[tid_idx(s0, t)].strong > 0 implies #[trigger] has_tid(
                        v1,
                        t,
                    ) by {
                        assert(has_tid(v0, t));
                        let w = tid_idx(v0, t);
                        lemma_tid_idx(v0, t, w);
                        assert(v0[w] == s0[tid_idx(s0, t)]);
                        assert(v0[w].strong > 0);
                        assert(w != ii);
                        if w < ii {
                            assert(v1[w].tid == t);
                        } else {
                            assert(v1[w - 1].tid == t);
                        }
                    };
                    // every outstanding handle still has its thread on record
                    assert forall|x: u64| #[trigger] spot_out(m, x) implies has_tid(
                        v1,
                        spot_tid(m, x),
                    ) by {
                        let t = spot_tid(m, x);
                        assert(has_tid(v0, t));
                        let w = tid_idx(v0, t);
                        lemma_tid_idx(v0, t, w);
                        assert(entry_inv(m, v0[w]));
                        assert(spot_out_for(m, x, t));
                        assert(v0[w].live_ids@.contains(x));
                        assert(v0[w].live_ids@.len() > 0);
                        assert(v0[w].strong > 0);
                        assert(w != ii);
                        if w < ii {
                            assert(v1[w].tid == t);
                        } else {
                            assert(v1[w - 1].tid == t);
                        }
                    };
                    assert(self.wf());
                }
            } else {
                i = i + 1;
            }
        }
        proof {
            let v = self.per_thread@;
            assert forall|t: u64| #[trigger] has_tid(v, t) == (has_tid(s0, t) && s0[tid_idx(
                s0,
                t,
            )].is_live()) by {
                if has_tid(v, t) {
                    let w = tid_idx(v, t);
                    lemma_tid_idx(v, t, w);
                    assert(v[w] == s0[tid_idx(s0, t)]);
                    assert(v[w].strong > 0);
                    assert(entry_inv(old(self).spots@, v[w]));
                }
                if has_tid(s0, t) && s0[tid_idx(s0, t)].strong > 0 {
                    assert(has_tid(v, t));
                }
                if has_tid(s0, t) && s0[tid_idx(s0, t)].is_live() {
                    assert(entry_inv(old(self).spots@, s0[tid_idx(s0, t)]));
                    assert(s0[tid_idx(s0, t)].strong > 0);
                }
            };
            assert forall|t: u64| #[trigger] self.thread_live(t) == old(self).thread_live(t) by {
                if has_tid(v, t) {
                    let w = tid_idx(v, t);
                    lemma_tid_idx(v, t, w);
                }
            };
            assert forall|t: u64| #[trigger] self.strong_of(t) == old(self).strong_of(t) by {
                if has_tid(v, t) {
                    let w = tid_idx(v, t);
                    lemma_tid_idx(v, t, w);
                } else {
                    if has_tid(s0, t) {
                        assert(s0[tid_idx(s0, t)].strong == 0);
                    }
                }
            };
            assert forall|t: u64, l: CommandBufferLevel| #[trigger] self.recycle_queue(t, l) == old(
                self,
            ).recycle_queue(t, l) by {
                if has_tid(v, t) {
                    let w = tid_idx(v, t);
                    lemma_tid_idx(v, t, w);
                } else {
                    if has_tid(s0, t) {
                        assert(s0[tid_idx(s0, t)].strong == 0);
                        assert(entry_inv(old(self).spots@, s0[tid_idx(s0, t)]));
                        assert(!s0[tid_idx(s0, t)].is_live());
                        assert(s0[tid_idx(s0, t)].queue_seq(l) == Seq::<u64>::empty());
                    }
                }
            };
        }
    }

    /// Allocates `count` buffers of `level` for the calling thread `tid`.
    ///
    /// Stale records are purged first; the thread's sub-pool is found or
    /// lazily created; up to `count` handles are popped from that sub-pool's
    /// recycle queue of the requested level; the remainder comes fresh from
    /// the native layer in one batch. Recycled buffers precede freshly
    /// allocated ones in the result. Either the full request is returned or a
    /// single out-of-memory error for the whole call; partial success is not
    /// representable. On the error, the popped handles return to their queue
    /// and nothing is issued.
    #[verifier::rlimit(100)]
    pub fn allocate(&mut self, tid: u64, level: CommandBufferLevel, count: u32) -> (r: Result<
        Vec<StandardCommandPoolBuilder>,
        OomError,
    >)
        requires
            old(self).wf(),
            old(self).owners() >= 1,
        ensures
            final(self).wf(),
            final(self).owners() == old(self).owners(),
            final(self).device_id() == old(self).device_id(),
            final(self).family_id() == old(self).family_id(),
            final(self).has_thread(tid),
            forall|t: u64|
                t != tid ==> #[trigger] final(self).has_thread(t) == (old(self).has_thread(t)
                    && old(self).thread_live(t)),
            forall|t: u64|
                t != tid ==> #[trigger] final(self).thread_live(t) == old(self).thread_live(t),
            forall|t: u64|
                t != tid ==> #[trigger] final(self).strong_of(t) == old(self).strong_of(t),
            forall|t: u64, l: CommandBufferLevel|
                t != tid ==> #[trigger] final(self).recycle_queue(t, l) == old(self).recycle_queue(
                    t,
                    l,
                ),
            forall|id: u64, t: u64, l: CommandBufferLevel|
                old(self).owns_id(id, t, l) ==> #[trigger] final(self).owns_id(id, t, l),
            final(self).recycle_queue(tid, other_level(level)) == old(self).recycle_queue(
                tid,
                other_level(level),
            ),
            match r {
                Ok(out) => {
                    let q = old(self).recycle_queue(tid, level);
                    let k = recycled_count(q, count);
                    &&& count - k <= old(self).capacity()
                    &&& out.len() == count
                    &&& forall|j: int| 0 <= j < k ==> #[trigger] out[j].finished().id() == q[j]
                    &&& forall|j: int|
                        k <= j < count ==> #[trigger] out[j].finished().id() == old(self).fresh_at()
                            + (j - k)
                    &&& forall|j: int|
                        0 <= j < count ==> (#[trigger] out[j].finished()).origin_thread() == tid
                            && out[j].finished().buffer_level() == level
                            && out[j].finished().family_id() == old(self).family_id()
                            && out[j].finished().device_id() == old(self).device_id() && final(self).owns(out[j].finished())
                    &&& forall|j: int, t: u64, l: CommandBufferLevel|
                        0 <= j < count ==> !#[trigger] old(self).owns_id(out[j].finished().id(), t, l)
                    &&& forall|j1: int, j2: int|
                        0 <= j1 < j2 < count ==> out[j1].finished().id() != out[j2].finished().id()
                    &&& final(self).fresh_at() == old(self).fresh_at() + (count - k)
                    &&& final(self).capacity() == old(self).capacity() - (count - k)
                    &&& final(self).outstanding() == old(self).outstanding() + count
                    &&& final(self).strong_of(tid) == old(self).strong_of(tid) + count
                    &&& (count > 0 ==> final(self).thread_live(tid))
                    &&& (count == 0 ==> final(self).thread_live(tid) == old(self).thread_live(tid))
                    &&& final(self).recycle_queue(tid, level) == q.skip(k)
                },
                Err(e) => {
                    let q = old(self).recycle_queue(tid, level);
                    let k = recycled_count(q, count);
                    &&& count - k > old(self).capacity()
                    &&& e == OomError::OutOfDeviceMemory
                    &&& final(self).fresh_at() == old(self).fresh_at()
                    &&& final(self).capacity() == old(self).capacity()
                    &&& final(self).outstanding() == old(self).outstanding()
                    &&& forall|id: u64, t: u64, l: CommandBufferLevel| #[trigger] final(self).owns_id(id, t, l) == old(self).owns_id(id, t, l)
                    &&& final(self).strong_of(tid) == old(self).strong_of(tid)
                    &&& final(self).thread_live(tid) == old(self).thread_live(tid)
                    &&& final(self).recycle_queue(tid, level) == q.skip(k) + q.take(k)
                },
            },
    {
        self.purge_stale();
        let ghost mid = *self;
        let mut i: usize = 0;
        while i < self.per_thread.len() && self.per_thread[i].tid != tid
            invariant
                *self == mid,
                0 <= i <= self.per_thread@.len(),
                forall|j: int| 0 <= j < i ==> self.per_thread@[j].tid != tid,
            decreases self.per_thread@.len() - i,
        {
            i = i + 1;
        }
        let ghost s1 = self.per_thread@;
        let ghost m0 = self.spots@;
        let was_present = i < self.per_thread.len();
        proof {
            if was_present {
                lemma_tid_idx(s1, tid, i as int);
                assert(entry_inv(m0, s1[i as int]));
                assert(s1[i as int].strong > 0);
                assert(mid.thread_live(tid));
            } else {
                if has_tid(s1, tid) {
                    let w = tid_idx(s1, tid);
                    assert(0 <= w < s1.len() && s1[w].tid == tid);
                    assert(false);
                }
            }
        }
        let entry = if was_present {
            self.per_thread.remove(i)
        } else {
            PerThreadEntry {
                tid,
                strong: 0,
                live_ids: Ghost(Set::empty()),
                sub: Some(ThreadSubPool { primary: queue_new(), secondary: queue_new() }),
            }
        };
        let PerThreadEntry { tid: etid, strong, live_ids, sub } = entry;
        let mut sp = match sub {
            Some(sp) => sp,
            None => {
                proof {
                    assert(false);
                }
                ThreadSubPool { primary: queue_new(), secondary: queue_new() }
            },
        };
        let ghost v2 = self.per_thread@;
        let ghost q0p = queue_ids(sp.primary);
        let ghost q0s = queue_ids(sp.secondary);
        let ghost q0 = if level is Primary {
            q0p
        } else {
            q0s
        };
        proof {
            assert(etid == tid);
            if was_present {
                assert(v2 == s1.remove(i as int));
                assert(forall|j: int| 0 <= j < i ==> v2[j] == s1[j]);
                assert(forall|j: int| i <= j < v2.len() ==> v2[j] == s1[j + 1]);
                assert(mid.recycle_queue(tid, level) == q0);
                assert(mid.recycle_queue(tid, other_level(level)) == (if level is Primary {
                    q0s
                } else {
                    q0p
                }));
                assert(mid.strong_of(tid) == strong);
            } else {
                assert(v2 == s1);
                assert(q0 == Seq::<u64>::empty());
                assert(mid.recycle_queue(tid, level) == Seq::<u64>::empty());
                assert(mid.strong_of(tid) == 0);
                assert(strong == 0);
            }
            assert(forall|j: int| 0 <= j < v2.len() ==> #[trigger] v2[j].tid != tid);
            assert(tids_distinct(v2));
            assert(forall|j: int| 0 <= j < v2.len() ==> entry_inv(m0, #[trigger] v2[j]));
            assert(live_ids@.finite());
            assert(strong == live_ids@.len());
            assert forall|x: u64| live_ids@.contains(x) <==> spot_out_for(m0, x, tid) by {
                if was_present {
                    assert(entry_inv(m0, s1[i as int]));
                } else {
                    assert(!live_ids@.contains(x));
                    if spot_out_for(m0, x, tid) {
                        assert(spot_out(m0, x));
                        assert(spot_tid(m0, x) == tid);
                        assert(has_tid(s1, tid));
                    }
                }
            };
            assert(queue_inv(m0, tid, CommandBufferLevel::Primary, q0p));
            assert(queue_inv(m0, tid, CommandBufferLevel::Secondary, q0s));
            assert(self.fresh_mark + self.native_capacity <= u64::MAX);
        }
        // satisfy what we can from the recycle queue of the requested level
        let avail = match level {
            CommandBufferLevel::Primary => queue_len(&sp.primary),
            CommandBufferLevel::Secondary => queue_len(&sp.secondary),
        };
        let count_us = count as usize;
        let take_n = if avail < count_us {
            avail
        } else {
            count_us
        };
        let mut out_ids: Vec<u64> = Vec::new();
        while out_ids.len() < take_n
            invariant
                take_n <= q0.len(),
                take_n <= count_us,
                count_us == count,
                out_ids@.len() <= take_n,
                out_ids@ == q0.take(out_ids@.len() as int),
                level is Primary ==> queue_ids(sp.primary) == q0.skip(out_ids@.len() as int)
                    && queue_ids(sp.secondary) == q0s,
                level is Secondary ==> queue_ids(sp.secondary) == q0.skip(out_ids@.len() as int)
                    && queue_ids(sp.primary) == q0p,
            decreases take_n - out_ids@.len(),
        {
            let ghost j = out_ids@.len() as int;
            let popped = match level {
                CommandBufferLevel::Primary => queue_pop(&mut sp.primary),
                CommandBufferLevel::Secondary => queue_pop(&mut sp.secondary),
            };
            proof {
                assert(q0.skip(j).len() == q0.len() - j);
                assert(q0.skip(j)[0] == q0[j]);
                assert(q0.skip(j).drop_first() =~= q0.skip(j + 1));
                assert(q0.take(j).push(q0[j]) =~= q0.take(j + 1));
            }
            match popped {
                Some(id) => {
                    out_ids.push(id);
                },
                None => {
                    proof {
                        assert(false);
                    }
                },
            }
        }
        let k = out_ids.len();
        proof {
            assert(k as int == recycled_count(q0, count));
        }
        let fresh_needed: u32 = count - (k as u32);
        if (fresh_needed as u64) > self.native_capacity {
            // out of native memory: park the popped handles again and fail whole
            let mut j: usize = 0;
            while j < out_ids.len()
                invariant
                    0 <= j <= out_ids@.len(),
                    out_ids@.len() == k,
                    k as int <= q0.len(),
                    out_ids@ == q0.take(k as int),
                    level is Primary ==> queue_ids(sp.primary) == q0.skip(k as int) + out_ids@.take(
                        j as int,
                    ) && queue_ids(sp.secondary) == q0s,
                    level is Secondary ==> queue_ids(sp.secondary) == q0.skip(k as int)
                        + out_ids@.take(j as int) && queue_ids(sp.primary) == q0p,
                decreases out_ids@.len() - j,
            {
                let id = out_ids[j];
                let ghost before = q0.skip(k as int) + out_ids@.take(j as int);
                match level {
                    CommandBufferLevel::Primary => queue_push(&mut sp.primary, id),
                    CommandBufferLevel::Secondary => queue_push(&mut sp.secondary, id),
                }
                proof {
                    assert(before.push(id) =~= q0.skip(k as int) + out_ids@.take(j as int + 1));
                }
                j = j + 1;
            }
            let restored_sub: Option<ThreadSubPool> = if strong == 0 {
                None
            } else {
                Some(sp)
            };
            let restored = PerThreadEntry { tid: etid, strong, live_ids, sub: restored_sub };
            let ghost restored_g = restored;
            if was_present {
                self.per_thread.insert(i, restored);
            } else {
                self.per_thread.push(restored);
            }
            proof {
                let v3 = self.per_thread@;
                let ip: int = if was_present {
                    i as int
                } else {
                    s1.len() as int
                };
                assert(v3[ip] == restored_g);
                assert(forall|j2: int| 0 <= j2 < v3.len() && j2 != ip ==> v3[j2] == v2[(if j2 < ip {
                    j2
                } else {
                    j2 - 1
                })]);
                assert(tids_distinct(v3));
                lemma_entry_transfer(s1, v2, v3, tid, i as int, ip, was_present);
                // the restored record satisfies its invariant: the level queue
                // was only rotated, nothing changed owner
                assert(out_ids@.take(out_ids@.len() as int) =~= out_ids@);
                assert(out_ids@.take(k as int) == q0.take(k as int));
                let rq = q0.skip(k as int) + q0.take(k as int);
                lemma_nodup_rotate(q0, k as int);
                assert(forall|j2: int|
                    0 <= j2 < rq.len() ==> #[trigger] rq[j2] == (if j2 < q0.len() - k {
                        q0[k + j2]
                    } else {
                        q0[j2 - (q0.len() - k)]
                    }));
                assert(forall|j2: int|
                    0 <= j2 < rq.len() ==> m0.dom().contains(#[trigger] rq[j2]) && m0[rq[j2]]
                        == (HandleSpot::Parked {
                        tid,
                        level,
                    }));
                match restored_g.sub {
                    Some(rsp) => {
                        assert(queue_inv(
                            m0,
                            tid,
                            CommandBufferLevel::Primary,
                            queue_ids(rsp.primary),
                        ));
                        assert(queue_inv(
                            m0,
                            tid,
                            CommandBufferLevel::Secondary,
                            queue_ids(rsp.secondary),
                        ));
                    },
                    None => {},
                }
                assert(entry_inv(m0, restored_g));
                assert forall|x: u64| #[trigger] spot_out(m0, x) implies has_tid(
                    v3,
                    spot_tid(m0, x),
                ) by {
                    let t = spot_tid(m0, x);
                    assert(has_tid(s1, t));
                    if t == tid {
                        assert(v3[ip].tid == t);
                    } else {
                        assert(has_tid(v3, t) == has_tid(s1, t));
                    }
                };
                assert(self.wf());
                // the public view of the failed call
                assert forall|t: u64| t != tid implies #[trigger] self.has_thread(t) == (old(
                    self,
                ).has_thread(t) && old(self).thread_live(t)) by {
                    assert(has_tid(v3, t) == has_tid(s1, t));
                    assert(mid.has_thread(t) == old(self).thread_live(t));
                    if old(self).thread_live(t) {
                        assert(old(self).has_thread(t));
                    }
                };
                assert forall|t: u64| t != tid implies #[trigger] self.thread_live(t) == old(
                    self,
                ).thread_live(t) by {
                    assert(mid.thread_live(t) == old(self).thread_live(t));
                    if has_tid(v3, t) {
                        assert(v3[tid_idx(v3, t)] == s1[tid_idx(s1, t)]);
                    } else {
                        assert(!has_tid(s1, t));
                    }
                };
                assert forall|t: u64| t != tid implies #[trigger] self.strong_of(t) == old(
                    self,
                ).strong_of(t) by {
                    assert(mid.strong_of(t) == old(self).strong_of(t));
                    if has_tid(v3, t) {
                        assert(v3[tid_idx(v3, t)] == s1[tid_idx(s1, t)]);
                    } else {
                        assert(!has_tid(s1, t));
                    }
                };
                assert forall|t: u64, l: CommandBufferLevel| t != tid implies #[trigger] self.recycle_queue(
                    t,
                    l,
                ) == old(self).recycle_queue(t, l) by {
                    assert(mid.recycle_queue(t, l) == old(self).recycle_queue(t, l));
                    if has_tid(v3, t) {
                        assert(v3[tid_idx(v3, t)] == s1[tid_idx(s1, t)]);
                    } else {
                        assert(!has_tid(s1, t));
                    }
                };
                let q_old = old(self).recycle_queue(tid, level);
                assert(mid.recycle_queue(tid, level) == q_old);
                assert(q_old == q0);
                assert(mid.recycle_queue(tid, other_level(level)) == old(self).recycle_queue(
                    tid,
                    other_level(level),
                ));
                assert(mid.strong_of(tid) == old(self).strong_of(tid));
                assert(mid.thread_live(tid) == old(self).thread_live(tid));
                assert(k as int == recycled_count(q_old, count));
                assert(self.strong_of(tid) == strong);
                assert(self.thread_live(tid) == (restored_g.sub is Some));
                if restored_g.sub is Some {
                    assert(was_present);
                    assert(restored_g.queue_seq(level) == rq);
                    assert(self.recycle_queue(tid, level) == rq);
                    assert(restored_g.queue_seq(other_level(level)) == (if level is Primary {
                        q0s
                    } else {
                        q0p
                    }));
                    assert(mid.recycle_queue(tid, other_level(level)) == (if level is Primary {
                        q0s
                    } else {
                        q0p
                    }));
                    assert(self.recycle_queue(tid, other_level(level)) == mid.recycle_queue(
                        tid,
                        other_level(level),
                    ));
                    assert(mid.thread_live(tid));
                } else {
                    assert(!was_present);
                    assert(q0 =~= Seq::<u64>::empty());
                    assert(rq =~= Seq::<u64>::empty());
                    assert(self.recycle_queue(tid, level) =~= rq);
                    assert(!self.thread_live(tid));
                    assert(!mid.thread_live(tid));
                    assert(mid.recycle_queue(tid, other_level(level)) =~= Seq::<u64>::empty());
                    assert(self.recycle_queue(tid, other_level(level)) =~= mid.recycle_queue(
                        tid,
                        other_level(level),
                    ));
                }
                assert(self.recycle_queue(tid, level) =~= q0.skip(k as int) + q0.take(k as int));
                assert(self.outstanding() == old(self).outstanding());
                assert(self.fresh_at() == old(self).fresh_at());
                assert(self.capacity() == old(self).capacity());
                assert(forall|id: u64, t: u64, l: CommandBufferLevel| #[trigger] self.owns_id(
                    id,
                    t,
                    l,
                ) == old(self).owns_id(id, t, l));
            }
            return Err(OomError::OutOfDeviceMemory);
        }
        // the rest comes fresh from the native layer, in one batch
        let base = self.fresh_mark;
        let mut c: u32 = 0;
        proof {
            assert(base + fresh_needed <= u64::MAX);
        }
        while c < fresh_needed
            invariant
                0 <= c <= fresh_needed,
                base + fresh_needed <= u64::MAX,
                out_ids@.len() == k + c,
                k as int <= q0.len(),
                forall|idx: int| 0 <= idx < k ==> #[trigger] out_ids@[idx] == q0[idx],
                forall|idx: int|
                    k <= idx < out_ids@.len() ==> #[trigger] out_ids@[idx] == base + (idx - k),
            decreases fresh_needed - c,
        {
            out_ids.push(base + c as u64);
            c = c + 1;
        }
        self.fresh_mark = self.fresh_mark + fresh_needed as u64;
        self.native_capacity = self.native_capacity - fresh_needed as u64;
        // wrap every handle for the caller, recycled ones first
        let qf = self.queue_family;
        let dev = self.device;
        let mut out: Vec<StandardCommandPoolBuilder> = Vec::new();
        let mut bi: usize = 0;
        while bi < out_ids.len()
            invariant
                0 <= bi <= out_ids@.len(),
                out@.len() == bi,
                forall|j2: int|
                    0 <= j2 < bi ==> (#[trigger] out@[j2].finished()) == (StandardCommandPoolAlloc {
                        cmd: out_ids@[j2],
                        origin: tid,
                        level,
                        queue_family: qf,
                        device: dev,
                    }),
            decreases out_ids@.len() - bi,
        {
            let id = out_ids[bi];
            out.push(
                StandardCommandPoolBuilder {
                    inner: StandardCommandPoolAlloc {
                        cmd: id,
                        origin: tid,
                        level,
                        queue_family: qf,
                        device: dev,
                    },
                },
            );
            bi = bi + 1;
        }
        // commit: every returned handle is now outstanding from this thread
        let ghost ids = out_ids@;
        let ghost m1 = Map::new(
            |x: u64| m0.dom().contains(x) || ids.contains(x),
            |x: u64|
                if ids.contains(x) {
                    HandleSpot::Outstanding { tid, level }
                } else {
                    m0[x]
                },
        );
        let ghost ls0 = self.live_set@;
        let ghost ls1 = union_ids(ls0, ids);
        let ghost el1 = union_ids(live_ids@, ids);
        proof {
            assert(ids.len() == count);
            assert(forall|j2: int| 0 <= j2 < k ==> m0.dom().contains(#[trigger] ids[j2]));
            assert(forall|j2: int| 0 <= j2 < k ==> #[trigger] ids[j2] < base);
            assert forall|j1: int, j2: int| 0 <= j1 < j2 < ids.len() implies ids[j1] != ids[j2] by {
                if j2 < k {
                    assert(q0[j1] != q0[j2]);
                } else if j1 >= k {
                    assert(ids[j1] == base + (j1 - k));
                } else {
                    assert(ids[j1] < base);
                    assert(ids[j2] >= base);
                }
            };
            assert(nodup_ids(ids));
            assert forall|j2: int| 0 <= j2 < ids.len() implies !ls0.contains(#[trigger] ids[j2]) by {
                if j2 < k {
                    assert(m0[ids[j2]] == (HandleSpot::Parked { tid, level }));
                    assert(!spot_out(m0, ids[j2]));
                } else {
                    assert(ids[j2] >= base);
                    assert(!m0.dom().contains(ids[j2]));
                    assert(!spot_out(m0, ids[j2]));
                }
            };
            lemma_union_ids_len(ls0, ids);
            assert forall|j2: int| 0 <= j2 < ids.len() implies !live_ids@.contains(
                #[trigger] ids[j2],
            ) by {
                if j2 < k {
                    assert(!spot_out_for(m0, ids[j2], tid));
                } else {
                    assert(!m0.dom().contains(ids[j2]));
                }
            };
            lemma_union_ids_len(live_ids@, ids);
            // both counts stay within the id space
            assert forall|x: u64| ls1.contains(x) implies x < self.fresh_mark by {
                if ls0.contains(x) {
                    assert(spot_out(m0, x));
                    assert(m0.dom().contains(x));
                    assert(x < base);
                } else {
                    let w = choose|w: int| 0 <= w < ids.len() && ids[w] == x;
                    if w < k {
                        assert(ids[w] == q0[w]);
                        assert(m0.dom().contains(q0[w]));
                        assert(x < base);
                    } else {
                        assert(ids[w] == base + (w - k));
                        assert(x < base + fresh_needed);
                    }
                }
            };
            lemma_id_set_len_bound(ls1, self.fresh_mark);
            assert forall|x: u64| el1.contains(x) implies ls1.contains(x) by {
                if live_ids@.contains(x) {
                    assert(spot_out_for(m0, x, tid));
                    assert(spot_out(m0, x));
                    assert(ls0.contains(x));
                }
            };
            lemma_len_subset(el1, ls1);
        }
        self.spots = Ghost(m1);
        self.live_set = Ghost(ls1);
        self.handle_refs = self.handle_refs + count as u64;
        let new_strong = strong + count as u64;
        let refreshed_sub: Option<ThreadSubPool> = if new_strong == 0 {
            None
        } else {
            Some(sp)
        };
        let refreshed = PerThreadEntry {
            tid: etid,
            strong: new_strong,
            live_ids: Ghost(el1),
            sub: refreshed_sub,
        };
        let ghost refreshed_g = refreshed;
        if was_present {
            self.per_thread.insert(i, refreshed);
        } else {
            self.per_thread.push(refreshed);
        }
        proof {
            let v3 = self.per_thread@;
            let ip: int = if was_present {
                i as int
            } else {
                s1.len() as int
            };
            assert(v3[ip] == refreshed_g);
            assert(forall|j2: int| 0 <= j2 < v3.len() && j2 != ip ==> v3[j2] == v2[(if j2 < ip {
                j2
            } else {
                j2 - 1
            })]);
            assert(tids_distinct(v3));
            lemma_entry_transfer(s1, v2, v3, tid, i as int, ip, was_present);
            // how the ghost map moved
            assert(forall|x: u64|
                ids.contains(x) ==> m1.dom().contains(x) && m1[x] == (HandleSpot::Outstanding {
                    tid,
                    level,
                }));
            assert(forall|x: u64|
                !ids.contains(x) ==> (m1.dom().contains(x) == m0.dom().contains(x)) && (
                m0.dom().contains(x) ==> m1[x] == m0[x]));
            assert forall|j2: int| 0 <= j2 < ids.len() implies (!m0.dom().contains(
                #[trigger] ids[j2],
            ) || m0[ids[j2]] == (HandleSpot::Parked { tid, level })) by {
                if j2 < k {
                    assert(ids[j2] == q0[j2]);
                } else {
                    assert(ids[j2] >= base);
                }
            };
            // untouched records keep their invariant
            assert(forall|j2: int|
                0 <= j2 < v2.len() ==> entry_inv(m0, #[trigger] v2[j2]) && v2[j2].tid != tid);
            lemma_entries_keep_inv(m0, m1, ids, tid, level, v2);
            assert(forall|j2: int|
                0 <= j2 < v3.len() && j2 != ip ==> entry_inv(m1, #[trigger] v3[j2]));
            // the refreshed record's invariant
            assert forall|x: u64| el1.contains(x) <==> spot_out_for(m1, x, tid) by {
                if ids.contains(x) {
                    assert(m1[x] == (HandleSpot::Outstanding { tid, level }));
                }
            };
            match refreshed_g.sub {
                Some(rsp) => {
                    let qp = queue_ids(rsp.primary);
                    let qs = queue_ids(rsp.secondary);
                    let rest = q0.skip(k as int);
                    assert forall|j3: int| 0 <= j3 < rest.len() implies !ids.contains(
                        #[trigger] rest[j3],
                    ) by {
                        assert(rest[j3] == q0[k + j3]);
                        if ids.contains(rest[j3]) {
                            let w = choose|w: int| 0 <= w < ids.len() && ids[w] == rest[j3];
                            if w < k {
                                assert(q0[w] == q0[k + j3]);
                            } else {
                                assert(ids[w] >= base);
                                assert(m0.dom().contains(q0[k + j3]));
                            }
                        }
                    };
                    let other_q = if level is Primary {
                        q0s
                    } else {
                        q0p
                    };
                    assert forall|j3: int| 0 <= j3 < other_q.len() implies !ids.contains(
                        #[trigger] other_q[j3],
                    ) by {
                        assert(m0[other_q[j3]] == (HandleSpot::Parked {
                            tid,
                            level: other_level(level),
                        }));
                        if ids.contains(other_q[j3]) {
                            let w = choose|w: int| 0 <= w < ids.len() && ids[w] == other_q[j3];
                            if w < k {
                                assert(m0[ids[w]] == (HandleSpot::Parked { tid, level }));
                            } else {
                                assert(!m0.dom().contains(ids[w]));
                            }
                        }
                    };
                    assert(queue_inv(m1, tid, CommandBufferLevel::Primary, qp));
                    assert(queue_inv(m1, tid, CommandBufferLevel::Secondary, qs));
                },
                None => {},
            }
            assert(entry_inv(m1, refreshed_g));
            // global bookkeeping
            let fresh_part = ids.skip(k as int);
            assert(forall|j2: int|
                0 <= j2 < fresh_part.len() ==> #[trigger] fresh_part[j2] == base + j2);
            assert(nodup_ids(fresh_part));
            assert(forall|j2: int|
                0 <= j2 < fresh_part.len() ==> !m0.dom().contains(#[trigger] fresh_part[j2]));
            lemma_union_ids_len(m0.dom(), fresh_part);
            assert forall|x: u64|
                m1.dom().contains(x) == (m0.dom().contains(x) || fresh_part.contains(x)) by {
                if ids.contains(x) {
                    let w = choose|w: int| 0 <= w < ids.len() && ids[w] == x;
                    if w < k {
                        assert(ids[w] == q0[w]);
                        assert(m0.dom().contains(q0[w]));
                    } else {
                        assert(fresh_part[w - k] == x);
                        assert(fresh_part.contains(x));
                    }
                }
                if fresh_part.contains(x) {
                    let w = choose|w: int| 0 <= w < fresh_part.len() && fresh_part[w] == x;
                    assert(ids[k + w] == x);
                    assert(ids.contains(x));
                }
            };
            assert(m1.dom() =~= union_ids(m0.dom(), fresh_part));
            assert(m1.dom().finite());
            assert(forall|x: u64| m1.dom().contains(x) ==> x < self.fresh_mark);
            assert forall|x: u64| ls1.contains(x) <==> spot_out(m1, x) by {
                if ids.contains(x) {
                    assert(spot_out(m1, x));
                    assert(ls1.contains(x));
                } else {
                    assert(ls1.contains(x) == ls0.contains(x));
                    assert(spot_out(m1, x) == spot_out(m0, x));
                }
            };
            assert(self.handle_refs == ls1.len());
            assert forall|x: u64| #[trigger] spot_out(m1, x) implies has_tid(
                v3,
                spot_tid(m1, x),
            ) by {
                if ids.contains(x) {
                    assert(spot_tid(m1, x) == tid);
                    assert(v3[ip].tid == tid);
                } else {
                    assert(spot_out(m0, x));
                    let t = spot_tid(m0, x);
                    assert(has_tid(s1, t));
                    if t == tid {
                        assert(v3[ip].tid == t);
                    } else {
                        assert(has_tid(v3, t) == has_tid(s1, t));
                    }
                }
            };
            assert(self.wf());
            // the public view of the change
            assert(self.strong_of(tid) == strong + count);
            if count > 0 {
                assert(new_strong > 0);
                assert(self.thread_live(tid));
            }
            assert forall|t: u64| t != tid implies #[trigger] self.has_thread(t) == (old(
                self,
            ).has_thread(t) && old(self).thread_live(t)) by {
                assert(has_tid(v3, t) == has_tid(s1, t));
                assert(mid.has_thread(t) == old(self).thread_live(t));
                if old(self).thread_live(t) {
                    assert(old(self).has_thread(t));
                }
            };
            assert forall|t: u64| t != tid implies #[trigger] self.thread_live(t) == old(
                self,
            ).thread_live(t) by {
                assert(mid.thread_live(t) == old(self).thread_live(t));
                if has_tid(v3, t) {
                    assert(v3[tid_idx(v3, t)] == s1[tid_idx(s1, t)]);
                } else {
                    assert(!has_tid(s1, t));
                }
            };
            assert forall|t: u64| t != tid implies #[trigger] self.strong_of(t) == old(
                self,
            ).strong_of(t) by {
                assert(mid.strong_of(t) == old(self).strong_of(t));
                if has_tid(v3, t) {
                    assert(v3[tid_idx(v3, t)] == s1[tid_idx(s1, t)]);
                } else {
                    assert(!has_tid(s1, t));
                }
            };
            assert forall|t: u64, l: CommandBufferLevel| t != tid implies #[trigger] self.recycle_queue(
                t,
                l,
            ) == old(self).recycle_queue(t, l) by {
                assert(mid.recycle_queue(t, l) == old(self).recycle_queue(t, l));
                if has_tid(v3, t) {
                    assert(v3[tid_idx(v3, t)] == s1[tid_idx(s1, t)]);
                } else {
                    assert(!has_tid(s1, t));
                }
            };
            // the origin thread's own view, traced back to before the call
            let q_old = old(self).recycle_queue(tid, level);
            assert(mid.recycle_queue(tid, level) == q_old);
            assert(q_old == q0);
            assert(mid.recycle_queue(tid, other_level(level)) == old(self).recycle_queue(
                tid,
                other_level(level),
            ));
            assert(mid.strong_of(tid) == old(self).strong_of(tid));
            assert(mid.thread_live(tid) == old(self).thread_live(tid));
            assert(k as int == recycled_count(q_old, count));
            assert(self.thread_live(tid) == (refreshed_g.sub is Some));
            if refreshed_g.sub is Some {
                assert(refreshed_g.queue_seq(level) == q0.skip(k as int));
                assert(self.recycle_queue(tid, level) == q0.skip(k as int));
                assert(refreshed_g.queue_seq(other_level(level)) == (if level is Primary {
                    q0s
                } else {
                    q0p
                }));
                if was_present {
                    assert(mid.recycle_queue(tid, other_level(level)) == (if level is Primary {
                        q0s
                    } else {
                        q0p
                    }));
                } else {
                    assert(q0s =~= Seq::<u64>::empty() && q0p =~= Seq::<u64>::empty());
                    assert(mid.recycle_queue(tid, other_level(level)) =~= Seq::<u64>::empty());
                }
                assert(self.recycle_queue(tid, other_level(level)) == mid.recycle_queue(
                    tid,
                    other_level(level),
                ));
            } else {
                assert(!was_present);
                assert(q0 =~= Seq::<u64>::empty());
                assert(self.recycle_queue(tid, level) =~= q0.skip(k as int));
                assert(mid.recycle_queue(tid, other_level(level)) =~= Seq::<u64>::empty());
                assert(self.recycle_queue(tid, other_level(level)) =~= mid.recycle_queue(
                    tid,
                    other_level(level),
                ));
            }
            if count == 0 {
                assert(k == 0 && fresh_needed == 0);
                assert(new_strong == strong);
                assert(self.thread_live(tid) == old(self).thread_live(tid));
            }
            // what the caller receives
            assert(ids.len() == count);
            assert forall|j2: int| 0 <= j2 < count implies (#[trigger] out@[j2].finished()).id()
                == ids[j2] && out@[j2].finished().origin_thread() == tid
                && out@[j2].finished().buffer_level() == level && out@[j2].finished().family_id()
                == old(self).family_id() && out@[j2].finished().device_id() == old(
                self,
            ).device_id() && self.owns(out@[j2].finished()) by {
                assert(m1.dom().contains(ids[j2]) && m1[ids[j2]] == (HandleSpot::Outstanding {
                    tid,
                    level,
                }));
            };
            assert forall|j2: int, t: u64, l: CommandBufferLevel| 0 <= j2 < count implies !#[trigger] old(
                self,
            ).owns_id(out@[j2].finished().id(), t, l) by {
                assert(old(self).spots@ == m0);
                if j2 < k {
                    assert(m0[ids[j2]] == (HandleSpot::Parked { tid, level }));
                } else {
                    assert(ids[j2] >= base);
                    assert(!m0.dom().contains(ids[j2]));
                }
            };
            assert(self.outstanding() == old(self).outstanding() + count);
            assert(self.fresh_at() == old(self).fresh_at() + (count - k));
            assert(self.capacity() == old(self).capacity() - (count - k));
            assert(self.strong_of(tid) == old(self).strong_of(tid) + count);
            assert forall|id: u64, t: u64, l: CommandBufferLevel| old(self).owns_id(
                id,
                t,
                l,
            ) implies #[trigger] self.owns_id(id, t, l) by {
                if ids.contains(id) {
                    let w = choose|w: int| 0 <= w < ids.len() && ids[w] == id;
                    if w < k {
                        assert(m0[ids[w]] == (HandleSpot::Parked { tid, level }));
                    } else {
                        assert(!m0.dom().contains(ids[w]));
                    }
                }
            };
        }
        Ok(out)
    }

    /// Destroys a finished handle: extracts its native handle exactly once and
    /// parks it at the back of the origin sub-pool's recycle queue selected by
    /// the handle's level. Safe to call from any thread; the handle routes to
    /// its thread of origin, never to the destroyer's sub-pool. When the last
    /// outstanding handle of a sub-pool goes away, the sub-pool itself is
    /// reclaimed and its queues are drained.
    pub fn recycle(&mut self, handle: StandardCommandPoolAlloc)
        requires
            old(self).wf(),
            old(self).owns(handle),
        ensures
            final(self).wf(),
            final(self).owners() == old(self).owners(),
            final(self).device_id() == old(self).device_id(),
            final(self).family_id() == old(self).family_id(),
            final(self).fresh_at() == old(self).fresh_at(),
            final(self).capacity() == old(self).capacity(),
            final(self).outstanding() == old(self).outstanding() - 1,
            final(self).entry_count() == old(self).entry_count(),
            forall|t: u64, l: CommandBufferLevel| !final(self).owns_id(handle.id(), t, l),
            forall|id: u64, t: u64, l: CommandBufferLevel|
                id != handle.id() ==> #[trigger] final(self).owns_id(id, t, l) == old(self).owns_id(
                    id,
                    t,
                    l,
                ),
            forall|t: u64| #[trigger] final(self).has_thread(t) == old(self).has_thread(t),
            forall|t: u64|
                t != handle.origin_thread() ==> #[trigger] final(self).thread_live(t) == old(
                    self,
                ).thread_live(t),
            forall|t: u64|
                t != handle.origin_thread() ==> #[trigger] final(self).strong_of(t) == old(
                    self,
                ).strong_of(t),
            forall|t: u64, l: CommandBufferLevel|
                t != handle.origin_thread() ==> #[trigger] final(self).recycle_queue(t, l) == old(
                    self,
                ).recycle_queue(t, l),
            final(self).strong_of(handle.origin_thread()) == old(self).strong_of(
                handle.origin_thread(),
            ) - 1,
            old(self).strong_of(handle.origin_thread()) > 1 ==> {
                &&& final(self).thread_live(handle.origin_thread())
                &&& final(self).recycle_queue(handle.origin_thread(), handle.buffer_level()) == old(
                    self,
                ).recycle_queue(handle.origin_thread(), handle.buffer_level()).push(handle.id())
                &&& final(self).recycle_queue(
                    handle.origin_thread(),
                    other_level(handle.buffer_level()),
                ) == old(self).recycle_queue(
                    handle.origin_thread(),
                    other_level(handle.buffer_level()),
                )
            },
            old(self).strong_of(handle.origin_thread()) == 1 ==> !final(self).thread_live(
                handle.origin_thread(),
            ),
    {
        let origin = handle.origin;
        let h = handle.cmd;
        let ghost m0 = self.spots@;
        let ghost s0 = self.per_thread@;
        proof {
            assert(spot_out(m0, h));
            assert(spot_tid(m0, h) == origin);
            assert(has_tid(s0, origin));
        }
        let mut i: usize = 0;
        while i < self.per_thread.len() && self.per_thread[i].tid != origin
            invariant
                self.per_thread@ == s0,
                0 <= i <= s0.len(),
                has_tid(s0, origin),
                forall|j: int| 0 <= j < i ==> s0[j].tid != origin,
            decreases s0.len() - i,
        {
            i = i + 1;
        }
        proof {
            if i == s0.len() {
                let w = tid_idx(s0, origin);
                assert(0 <= w < s0.len() && s0[w].tid == origin);
                assert(false);
            }
            lemma_tid_idx(s0, origin, i as int);
            assert(entry_inv(m0, s0[i as int]));
        }
        let entry = self.per_thread.remove(i);
        let PerThreadEntry { tid: etid, strong, live_ids, sub } = entry;
        proof {
            assert(s0[i as int].tid == etid && s0[i as int].strong == strong && s0[i as int].live_ids
                == live_ids && s0[i as int].sub == sub);
            assert(spot_out_for(m0, h, origin));
            assert(live_ids@.contains(h));
            assert(live_ids@.len() > 0);
            assert(strong > 0);
        }
        let mut sp = match sub {
            Some(sp) => sp,
            None => {
                proof {
                    assert(false);
                }
                ThreadSubPool { primary: queue_new(), secondary: queue_new() }
            },
        };
        let ghost q_primary = queue_ids(sp.primary);
        let ghost q_secondary = queue_ids(sp.secondary);
        match handle.level {
            CommandBufferLevel::Primary => queue_push(&mut sp.primary, h),
            CommandBufferLevel::Secondary => queue_push(&mut sp.secondary, h),
        }
        let new_strong = strong - 1;
        let new_sub: Option<ThreadSubPool> = if new_strong == 0 {
            None
        } else {
            Some(sp)
        };
        let new_entry = PerThreadEntry {
            tid: etid,
            strong: new_strong,
            live_ids: Ghost(live_ids@.remove(h)),
            sub: new_sub,
        };
        self.per_thread.insert(i, new_entry);
        self.handle_refs = self.handle_refs - 1;
        self.spots = Ghost(
            m0.insert(h, HandleSpot::Parked { tid: origin, level: handle.level }),
        );
        self.live_set = Ghost(self.live_set@.remove(h));
        proof {
            let m1 = self.spots@;
            let s1 = self.per_thread@;
            let ii = i as int;
            assert(s1 == s0.remove(ii).insert(ii, new_entry));
            assert(s1.len() == s0.len());
            assert(forall|j: int| 0 <= j < s1.len() && j != ii ==> s1[j] == s0[j]);
            assert(s1[ii] == new_entry);
            assert(forall|j: int| 0 <= j < s1.len() ==> s1[j].tid == s0[j].tid);
            assert(tids_distinct(s1));

            // the moved handle's record
            assert(m1[h] == (HandleSpot::Parked { tid: origin, level: handle.level }));
            assert(forall|x: u64| x != h && m0.dom().contains(x) ==> m1[x] == m0[x]);
            assert(m1.dom() =~= m0.dom());

            // untouched entries keep their invariant
            assert forall|j: int| 0 <= j < s1.len() && j != ii implies entry_inv(
                m1,
                #[trigger] s1[j],
            ) by {
                let e = s1[j];
                assert(entry_inv(m0, e));
                assert(e.tid != origin);
                assert(!spot_out_for(m0, h, e.tid));
                assert(!spot_out_for(m1, h, e.tid));
                assert(forall|x: u64|
                    x != h ==> #[trigger] spot_out_for(m1, x, e.tid) == spot_out_for(m0, x, e.tid));
                match e.sub {
                    Some(esp) => {
                        let qp = queue_ids(esp.primary);
                        let qs = queue_ids(esp.secondary);
                        assert(forall|k: int| 0 <= k < qp.len() ==> #[trigger] qp[k] != h);
                        assert(forall|k: int| 0 <= k < qs.len() ==> #[trigger] qs[k] != h);
                        assert(queue_inv(m1, e.tid, CommandBufferLevel::Primary, qp));
                        assert(queue_inv(m1, e.tid, CommandBufferLevel::Secondary, qs));
                    },
                    None => {},
                }
            };

            // the origin entry's invariant after the push
            assert(!spot_out_for(m1, h, origin));
            assert(forall|x: u64|
                x != h ==> #[trigger] spot_out_for(m1, x, origin) == spot_out_for(m0, x, origin));
            assert(forall|x: u64|
                new_entry.live_ids@.contains(x) <==> spot_out_for(m1, x, origin));
            assert(new_entry.live_ids@.len() == new_strong);
            if new_strong > 0 {
                let nsp = new_entry.sub->Some_0;
                let q0 = if handle.level is Primary {
                    q_primary
                } else {
                    q_secondary
                };
                let qu = if handle.level is Primary {
                    queue_ids(nsp.primary)
                } else {
                    queue_ids(nsp.secondary)
                };
                assert(qu == q0.push(h));
                assert(forall|k: int| 0 <= k < q0.len() ==> #[trigger] q0[k] != h);
                assert(queue_inv(m1, origin, CommandBufferLevel::Primary, queue_ids(nsp.primary)));
                assert(queue_inv(
                    m1,
                    origin,
                    CommandBufferLevel::Secondary,
                    queue_ids(nsp.secondary),
                ));
                assert(entry_inv(m1, new_entry));
            } else {
                assert(entry_inv(m1, new_entry));
            }

            // global bookkeeping
            assert(old(self).live_set@.contains(h));
            assert forall|x: u64| #[trigger] self.live_set@.contains(x) <==> spot_out(m1, x) by {
                if x == h {
                    assert(!self.live_set@.contains(x));
                    assert(!spot_out(m1, x));
                } else {
                    assert(self.live_set@.contains(x) == old(self).live_set@.contains(x));
                    assert(old(self).live_set@.contains(x) == spot_out(m0, x));
                    assert(spot_out(m1, x) == spot_out(m0, x));
                }
            };
            assert(self.handle_refs == self.live_set@.len());
            assert forall|x: u64| #[trigger] spot_out(m1, x) implies has_tid(s1, spot_tid(m1, x)) by {
                assert(x != h);
                assert(spot_out(m0, x));
                assert(spot_tid(m1, x) == spot_tid(m0, x));
                let t = spot_tid(m0, x);
                let w = tid_idx(s0, t);
                assert(0 <= w < s0.len() && s0[w].tid == t);
                assert(s1[w].tid == t);
            };
            assert(self.wf());

            // the public view of the change
            assert forall|t: u64| #[trigger] self.has_thread(t) == old(self).has_thread(t) by {
                if has_tid(s0, t) {
                    let w = tid_idx(s0, t);
                    assert(s1[w].tid == t);
                }
                if has_tid(s1, t) {
                    let w = tid_idx(s1, t);
                    assert(s0[w].tid == t);
                }
            };
            assert forall|t: u64| t != origin && has_tid(s1, t) implies s1[tid_idx(s1, t)]
                == s0[tid_idx(s0, t)] by {
                let w = tid_idx(s1, t);
                assert(0 <= w < s1.len() && s1[w].tid == t);
                lemma_tid_idx(s1, t, w);
                lemma_tid_idx(s0, t, w);
                assert(w != ii);
            };
            lemma_tid_idx(s1, origin, ii);
            assert(self.strong_of(origin) == new_strong);
        }
    }
}

/// How many of `count` requested buffers a recycle queue `q` can satisfy.
pub open spec fn recycled_count(q: Seq<u64>, count: u32) -> int {
    if q.len() >= count {
        count as int
    } else {
        q.len() as int
    }
}

/// The buffer level the given one must never be confused with.
pub open spec fn other_level(l: CommandBufferLevel) -> CommandBufferLevel {
    match l {
        CommandBufferLevel::Primary => CommandBufferLevel::Secondary,
        CommandBufferLevel::Secondary => CommandBufferLevel::Primary,
    }
}

/// No native handle id occurs twice in the sequence.
spec fn nodup_ids(q: Seq<u64>) -> bool {
    forall|j1: int, j2: int| 0 <= j1 < j2 < q.len() ==> q[j1] != q[j2]
}

/// `s` extended by every id in `ids`.
spec fn union_ids(s: Set<u64>, ids: Seq<u64>) -> Set<u64> {
    Set::new(|x: u64| s.contains(x) || ids.contains(x))
}

/// Adding pairwise-distinct, fresh ids to a finite set grows it by their count.
proof fn lemma_union_ids_len(s: Set<u64>, ids: Seq<u64>)
    requires
        s.finite(),
        nodup_ids(ids),
        forall|j: int| 0 <= j < ids.len() ==> !s.contains(#[trigger] ids[j]),
    ensures
        union_ids(s, ids).finite(),
        union_ids(s, ids).len() == s.len() + ids.len(),
    decreases ids.len(),
{
    if ids.len() == 0 {
        assert(union_ids(s, ids) =~= s);
    } else {
        let front = ids.drop_last();
        assert(forall|j: int| 0 <= j < front.len() ==> front[j] == ids[j]);
        lemma_union_ids_len(s, front);
        let x = ids.last();
        assert(!union_ids(s, front).contains(x));
        assert(union_ids(s, ids) =~= union_ids(s, front).insert(x));
    }
}

/// A finite set of ids below `n` has at most `n` elements.
proof fn lemma_id_set_len_bound(s: Set<u64>, n: u64)
    requires
        s.finite(),
        forall|h: u64| s.contains(h) ==> h < n,
    ensures
        s.len() <= n,
    decreases n,
{
    if n == 0 {
        assert(s =~= Set::empty());
    } else {
        let top = (n - 1) as u64;
        let s2 = s.remove(top);
        assert(forall|h: u64| s2.contains(h) ==> h < top);
        lemma_id_set_len_bound(s2, top);
        if s.contains(top) {
            assert(s.len() == s2.len() + 1);
        } else {
            assert(s2 =~= s);
        }
    }
}

/// Rotating a duplicate-free sequence keeps it duplicate-free.
proof fn lemma_nodup_rotate(q: Seq<u64>, k: int)
    requires
        nodup_ids(q),
        0 <= k <= q.len(),
    ensures
        nodup_ids(q.skip(k) + q.take(k)),
{
    let r = q.skip(k) + q.take(k);
    assert forall|j1: int, j2: int| 0 <= j1 < j2 < r.len() implies r[j1] != r[j2] by {
        let n = q.len();
        if j1 < n - k {
            assert(r[j1] == q[k + j1]);
        } else {
            assert(r[j1] == q[j1 - (n - k)]);
        }
        if j2 < n - k {
            assert(r[j2] == q[k + j2]);
        } else {
            assert(r[j2] == q[j2 - (n - k)]);
        }
    };
}

/// How the per-thread records look after the record of thread `tid`, at index
/// `i` when it was present, was taken out of `s1` (giving `v2`) and a refreshed
/// record was put back at index `ip` (giving `v3`): every other thread's record
/// is exactly what it was.
proof fn lemma_entry_transfer(
    s1: Seq<PerThreadEntry>,
    v2: Seq<PerThreadEntry>,
    v3: Seq<PerThreadEntry>,
    tid: u64,
    i: int,
    ip: int,
    was_present: bool,
)
    requires
        tids_distinct(s1),
        tids_distinct(v3),
        was_present ==> 0 <= i < s1.len() && s1[i].tid == tid && v2 == s1.remove(i) && ip == i,
        !was_present ==> v2 == s1 && !has_tid(s1, tid) && ip == s1.len(),
        0 <= ip < v3.len(),
        v3.len() == v2.len() + 1,
        v3[ip].tid == tid,
        forall|j: int|
            0 <= j < v3.len() && j != ip ==> v3[j] == v2[(if j < ip {
                j
            } else {
                j - 1
            })],
    ensures
        has_tid(v3, tid),
        tid_idx(v3, tid) == ip,
        forall|t: u64| t != tid ==> #[trigger] has_tid(v3, t) == has_tid(s1, t),
        forall|t: u64|
            t != tid && #[trigger] has_tid(v3, t) ==> v3[tid_idx(v3, t)] == s1[tid_idx(s1, t)],
{
    lemma_tid_idx(v3, tid, ip);
    if was_present {
        assert(forall|j: int| 0 <= j < i ==> v2[j] == s1[j]);
        assert(forall|j: int| i <= j < v2.len() ==> v2[j] == s1[j + 1]);
    }
    assert forall|t: u64| t != tid implies #[trigger] has_tid(v3, t) == has_tid(s1, t) by {
        if has_tid(s1, t) {
            let w = tid_idx(s1, t);
            lemma_tid_idx(s1, t, w);
            if was_present {
                let wv: int = if w < i {
                    w
                } else {
                    w - 1
                };
                assert(v2[wv] == s1[w]);
                let w3: int = if wv < ip {
                    wv
                } else {
                    wv + 1
                };
                assert(v3[w3] == v2[wv]);
            } else {
                assert(v3[w] == s1[w]);
            }
        }
        if has_tid(v3, t) {
            let w3 = tid_idx(v3, t);
            lemma_tid_idx(v3, t, w3);
            assert(w3 != ip);
            let wv: int = if w3 < ip {
                w3
            } else {
                w3 - 1
            };
            assert(v3[w3] == v2[wv]);
            if was_present {
                let ws: int = if wv < i {
                    wv
                } else {
                    wv + 1
                };
                assert(v2[wv] == s1[ws]);
            }
        }
    };
    assert forall|t: u64| t != tid && #[trigger] has_tid(v3, t) implies v3[tid_idx(v3, t)]
        == s1[tid_idx(s1, t)] by {
        let w3 = tid_idx(v3, t);
        lemma_tid_idx(v3, t, w3);
        assert(w3 != ip);
        let wv: int = if w3 < ip {
            w3
        } else {
            w3 - 1
        };
        assert(v3[w3] == v2[wv]);
        if was_present {
            let ws: int = if wv < i {
                wv
            } else {
                wv + 1
            };
            assert(v2[wv] == s1[ws]);
            lemma_tid_idx(s1, t, ws);
        } else {
            lemma_tid_idx(s1, t, wv);
        }
    };
}

/// Records of threads other than `tid` keep their invariant when every id in
/// `ids` moves to the outstanding state for `tid`: none of those ids was theirs.
proof fn lemma_entries_keep_inv(
    m0: Map<u64, HandleSpot>,
    m1: Map<u64, HandleSpot>,
    ids: Seq<u64>,
    tid: u64,
    level: CommandBufferLevel,
    v: Seq<PerThreadEntry>,
)
    requires
        forall|x: u64|
            ids.contains(x) ==> m1.dom().contains(x) && m1[x] == (HandleSpot::Outstanding {
                tid,
                level,
            }),
        forall|x: u64|
            !ids.contains(x) ==> (m1.dom().contains(x) == m0.dom().contains(x)) && (
            m0.dom().contains(x) ==> m1[x] == m0[x]),
        forall|j: int|
            0 <= j < ids.len() ==> (!m0.dom().contains(#[trigger] ids[j]) || m0[ids[j]]
                == (HandleSpot::Parked { tid, level })),
        forall|j: int| 0 <= j < v.len() ==> entry_inv(m0, #[trigger] v[j]) && v[j].tid != tid,
    ensures
        forall|j: int| 0 <= j < v.len() ==> entry_inv(m1, #[trigger] v[j]),
{
    assert forall|j: int| 0 <= j < v.len() implies entry_inv(m1, #[trigger] v[j]) by {
        let e = v[j];
        assert(entry_inv(m0, e));
        assert forall|x: u64| e.live_ids@.contains(x) <==> spot_out_for(m1, x, e.tid) by {
            if ids.contains(x) {
                assert(!spot_out_for(m0, x, e.tid));
                assert(!spot_out_for(m1, x, e.tid));
            }
        };
        match e.sub {
            Some(esp) => {
                let qp = queue_ids(esp.primary);
                let qs = queue_ids(esp.secondary);
                assert forall|j3: int| 0 <= j3 < qp.len() implies !ids.contains(
                    #[trigger] qp[j3],
                ) by {
                    if ids.contains(qp[j3]) {
                        let w = choose|w: int| 0 <= w < ids.len() && ids[w] == qp[j3];
                        assert(!m0.dom().contains(ids[w]) || m0[ids[w]] == (HandleSpot::Parked {
                            tid,
                            level,
                        }));
                    }
                };
                assert forall|j3: int| 0 <= j3 < qs.len() implies !ids.contains(
                    #[trigger] qs[j3],
                ) by {
                    if ids.contains(qs[j3]) {
                        let w = choose|w: int| 0 <= w < ids.len() && ids[w] == qs[j3];
                        assert(!m0.dom().contains(ids[w]) || m0[ids[w]] == (HandleSpot::Parked {
                            tid,
                            level,
                        }));
                    }
                };
                assert(queue_inv(m1, e.tid, CommandBufferLevel::Primary, qp));
                assert(queue_inv(m1, e.tid, CommandBufferLevel::Secondary, qs));
            },
            None => {},
        }
    };
}

/// `tid_idx` is the one index that carries thread `t`.
proof fn lemma_tid_idx(s: Seq<PerThreadEntry>, t: u64, i: int)
    requires
        tids_distinct(s),
        0 <= i < s.len(),
        s[i].tid == t,
    ensures
        has_tid(s, t),
        tid_idx(s, t) == i,
{
    assert(has_tid(s, t));
    let j = tid_idx(s, t);
    assert(0 <= j < s.len() && s[j].tid == t);
    if j < i {
        assert(s[j].tid != s[i].tid);
    } else if i < j {
        assert(s[i].tid != s[j].tid);
    }
}

/// Law: an outstanding handle keeps the registry alive, whether or not any
/// external owner still holds a reference to it.
pub proof fn lemma_handle_keeps_alive(r: StandardCommandPool, a: StandardCommandPoolAlloc)
    requires
        r.wf(),
        r.owns(a),
    ensures
        r.alive(),
        r.outstanding() > 0,
{
    assert(spot_out(r.spots@, a.id()));
    assert(r.live_set@.contains(a.id()));
    assert(r.live_set@.len() > 0);
}

/// Law: at any instant a native handle id is outstanding at most once; two
/// handles the registry owns under the same id agree in origin and level, so
/// no id is ever handed out twice concurrently.
pub proof fn lemma_outstanding_distinct(
    r: StandardCommandPool,
    a1: StandardCommandPoolAlloc,
    a2: StandardCommandPoolAlloc,
)
    requires
        r.wf(),
        r.owns(a1),
        r.owns(a2),
        a1.id() == a2.id(),
    ensures
        a1.origin_thread() == a2.origin_thread(),
        a1.buffer_level() == a2.buffer_level(),
{
}

/// Law: recycle queues are isolated by thread and by level: two different
/// queues never hold the same native handle id. In particular a recycled
/// primary handle can never answer a request for secondary buffers.
pub proof fn lemma_queue_isolation(
    r: StandardCommandPool,
    t1: u64,
    l1: CommandBufferLevel,
    t2: u64,
    l2: CommandBufferLevel,
    j1: int,
    j2: int,
)
    requires
        r.wf(),
        t1 != t2 || l1 != l2,
        0 <= j1 < r.recycle_queue(t1, l1).len(),
        0 <= j2 < r.recycle_queue(t2, l2).len(),
    ensures
        r.recycle_queue(t1, l1)[j1] != r.recycle_queue(t2, l2)[j2],
{
    let s = r.per_thread@;
    let m = r.spots@;
    assert(has_tid(s, t1));
    assert(has_tid(s, t2));
    let w1 = tid_idx(s, t1);
    let w2 = tid_idx(s, t2);
    assert(0 <= w1 < s.len() && s[w1].tid == t1);
    assert(0 <= w2 < s.len() && s[w2].tid == t2);
    assert(entry_inv(m, s[w1]));
    assert(entry_inv(m, s[w2]));
    let x1 = r.recycle_queue(t1, l1)[j1];
    let x2 = r.recycle_queue(t2, l2)[j2];
    assert(m.dom().contains(x1) && m[x1] == (HandleSpot::Parked { tid: t1, level: l1 }));
    assert(m.dom().contains(x2) && m[x2] == (HandleSpot::Parked { tid: t2, level: l2 }));
}

/// Law: an outstanding handle's native id sits in no recycle queue; a buffer
/// in use can never be handed out again before it was recycled.
pub proof fn lemma_owned_not_parked(
    r: StandardCommandPool,
    a: StandardCommandPoolAlloc,
    t: u64,
    l: CommandBufferLevel,
    j: int,
)
    requires
        r.wf(),
        r.owns(a),
        0 <= j < r.recycle_queue(t, l).len(),
    ensures
        r.recycle_queue(t, l)[j] != a.id(),
{
    let s = r.per_thread@;
    let m = r.spots@;
    assert(has_tid(s, t));
    let w = tid_idx(s, t);
    assert(0 <= w < s.len() && s[w].tid == t);
    assert(entry_inv(m, s[w]));
    let x = r.recycle_queue(t, l)[j];
    assert(m.dom().contains(x) && m[x] == (HandleSpot::Parked { tid: t, level: l }));
    assert(m[a.id()] is Outstanding);
}

/// Everything observable about the registry except the owner count.
pub open spec fn unchanged_but_owners(a: StandardCommandPool, b: StandardCommandPool) -> bool {
    &&& b.device_id() == a.device_id()
    &&& b.family_id() == a.family_id()
    &&& b.outstanding() == a.outstanding()
    &&& b.fresh_at() == a.fresh_at()
    &&& b.capacity() == a.capacity()
    &&& b.entry_count() == a.entry_count()
    &&& forall|t: u64| #[trigger] b.has_thread(t) == a.has_thread(t)
    &&& forall|t: u64| #[trigger] b.thread_live(t) == a.thread_live(t)
    &&& forall|t: u64| #[trigger] b.strong_of(t) == a.strong_of(t)
    &&& forall|t: u64, l: CommandBufferLevel| #[trigger] b.recycle_queue(t, l) == a.recycle_queue(
        t,
        l,
    )
    &&& forall|id: u64, t: u64, l: CommandBufferLevel| #[trigger] b.owns_id(id, t, l)
        == a.owns_id(id, t, l)
}

} // verus!
