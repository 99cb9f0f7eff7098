//! The account of a device's buffers: which there are, which are in use, which wait for reuse.

use vstd::prelude::*;
use vstd::slice::slice_to_vec;

use crate::gpu::memory::{
    content, faithful, host_log, lemma_acquired, lemma_faithful_acquire, lemma_faithful_run,
    lemma_faithful_start, lemma_faithful_write, lemma_others_kept, lemma_ran, lemma_uploaded,
    meets, outcome, Event, Op, Term, Work,
};

verus! {

/// What a buffer may be bound as. Every buffer can also be copied to; a storage buffer can be
/// copied from.
#[derive(Clone, Copy, Debug, PartialEq, Eq, Structural)]
pub enum Usage {
    Storage,
    Uniform,
}

/// The size in bytes of a buffer and what it may be bound as.
#[derive(Clone, Copy, Debug, PartialEq, Eq, Structural)]
pub struct BufferInfo {
    pub size: u64,
    pub usage: Usage,
}

/// Buffers at or below this size are recycled through the pool; larger ones (e.g. weight tensors)
/// are always freshly allocated and freed normally, so the pool never retains giant allocations.
pub const MAX_POOLED_BYTES: u64 = 0x400_0000;

/// Keeps account of the buffers of a GPU, by number, and of a pool of recyclable ones.
pub struct Device {
    buffers: Vec<BufferInfo>,
    /// Recyclable buffers in the order in which they were given back.
    pool: Vec<usize>,
    /// Words that the host has to write to buffers.
    uploads: Vec<(usize, Vec<u32>)>,
    /// Work that the host has to run after that.
    ops: Vec<Op>,
    /// Buffers that the host has to free.
    released: Vec<usize>,
    live: Ghost<Set<usize>>,
    log: Ghost<Seq<Event>>,
    host: Ghost<Seq<Event>>,
}

/// What a host has to do: write words to buffers, from their beginning, then run work.
#[derive(Debug)]
pub struct Batch {
    pub uploads: Vec<(usize, Vec<u32>)>,
    pub ops: Vec<Op>,
}

/// What a [`Device`] accounts for.
#[verifier::ext_equal]
pub struct DeviceView {
    pub buffers: Seq<BufferInfo>,
    pub pool: Seq<usize>,
    /// Words that the host has to write to buffers.
    pub uploads: Seq<(usize, Seq<u32>)>,
    /// Work that the host has to run after that.
    pub pending: Seq<Work>,
    pub released: Seq<usize>,
    /// The buffers that are in use.
    pub live: Set<usize>,
    /// What has happened to the buffers so far, in the order in which it was asked for.
    pub log: Seq<Event>,
    /// What the host was told to do so far, in the order in which it does it.
    pub host: Seq<Event>,
}

/// Recorded work, by its views.
pub open spec fn works(ops: Seq<Op>) -> Seq<Work> {
    ops.map_values(|o: Op| o@)
}

/// Words to write to buffers, by their views.
pub open spec fn writes(uploads: Seq<(usize, Vec<u32>)>) -> Seq<(usize, Seq<u32>)> {
    uploads.map_values(|u: (usize, Vec<u32>)| (u.0, u.1@))
}

impl View for Device {
    type V = DeviceView;

    closed spec fn view(&self) -> DeviceView {
        DeviceView {
            buffers: self.buffers@,
            pool: self.pool@,
            uploads: writes(self.uploads@),
            pending: works(self.ops@),
            released: self.released@,
            live: self.live@,
            log: self.log@,
            host: self.host@,
        }
    }
}

impl DeviceView {
    /// Whether the account is consistent: every buffer in use, in the pool or in recorded work
    /// exists; nothing that waits is in use, is too large or waits twice; and once the host has
    /// written the words and run the work that it has to, its buffers hold what the account says.
    pub open spec fn wf(self) -> bool {
        &&& forall|id: usize| #[trigger] self.live.contains(id) ==> id < self.buffers.len()
        &&& forall|i: int|
            0 <= i < self.pool.len() ==> (#[trigger] self.pool[i]) < self.buffers.len()
                && !self.live.contains(self.pool[i]) && self.buffers[self.pool[i] as int].size
                <= MAX_POOLED_BYTES
        &&& self.pool.no_duplicates()
        &&& forall|i: int|
            0 <= i < self.pending.len() ==> (#[trigger] self.pending[i]).bound()
                && self.pending[i].target() < self.buffers.len()
        &&& forall|i: int, id: usize|
            0 <= i < self.pending.len() && #[trigger] self.pending[i].touches(id) ==> id
                < self.buffers.len()
        &&& faithful(host_log(self.host, self.uploads, self.pending), self.log)
    }

    /// What a buffer holds.
    pub open spec fn holds(self, id: usize) -> Term {
        content(self.log, id)
    }

    /// Where in the pool the last buffer of exactly this size and usage waits; below zero where
    /// none does.
    pub open spec fn slot(self, info: BufferInfo) -> int {
        last_slot(self.buffers, self.pool, info)
    }
}

/// The last position of the pool at which a buffer of this size and usage waits.
pub open spec fn last_slot(buffers: Seq<BufferInfo>, pool: Seq<usize>, info: BufferInfo) -> int
    decreases pool.len(),
{
    if pool.len() == 0 {
        -1
    } else if buffers[pool.last() as int] == info {
        pool.len() - 1
    } else {
        last_slot(buffers, pool.drop_last(), info)
    }
}

/// How many buffers of this size and usage wait in the pool.
pub open spec fn waiting(buffers: Seq<BufferInfo>, pool: Seq<usize>, info: BufferInfo) -> nat
    decreases pool.len(),
{
    if pool.len() == 0 {
        0
    } else {
        waiting(buffers, pool.drop_last(), info) + if buffers[pool.last() as int] == info {
            1nat
        } else {
            0
        }
    }
}

proof fn lemma_last_slot(buffers: Seq<BufferInfo>, pool: Seq<usize>, info: BufferInfo, i: int)
    requires
        -1 <= i < pool.len(),
        i >= 0 ==> buffers[pool[i] as int] == info,
        forall|j: int| i < j < pool.len() ==> buffers[(#[trigger] pool[j]) as int] != info,
    ensures
        last_slot(buffers, pool, info) == i,
    decreases pool.len(),
{
    if pool.len() > 0 && i < pool.len() - 1 {
        assert(buffers[pool[pool.len() - 1] as int] != info);
        lemma_last_slot(buffers, pool.drop_last(), info, i);
    }
}

/// Whether every buffer of `a` is still there in `b`, and those in use, but for `changed`, hold
/// what they held.
pub open spec fn same_but(a: DeviceView, b: DeviceView, changed: Set<usize>) -> bool {
    &&& a.buffers.len() <= b.buffers.len()
    &&& forall|i: int| 0 <= i < a.buffers.len() ==> #[trigger] b.buffers[i] == a.buffers[i]
    &&& forall|id: usize|
        #![trigger b.holds(id)]
        #![trigger a.holds(id)]
        a.live.contains(id) && !changed.contains(id) ==> b.holds(id) == a.holds(id)
}

/// Whether `b` is `a` with one more buffer in use, which was not in use before.
pub open spec fn gained(a: DeviceView, b: DeviceView, id: usize) -> bool {
    &&& !a.live.contains(id)
    &&& b.live == a.live.insert(id)
    &&& same_but(a, b, Set::empty())
}

impl Device {
    /// A device without buffers.
    pub fn new() -> (r: Device)
        ensures
            r@.wf(),
            r@ == (DeviceView {
                buffers: Seq::empty(),
                pool: Seq::empty(),
                uploads: Seq::empty(),
                pending: Seq::empty(),
                released: Seq::empty(),
                live: Set::empty(),
                log: Seq::empty(),
                host: Seq::empty(),
            }),
    {
        let r = Device {
            buffers: Vec::new(),
            pool: Vec::new(),
            uploads: Vec::new(),
            ops: Vec::new(),
            released: Vec::new(),
            live: Ghost(Set::empty()),
            log: Ghost(Seq::empty()),
            host: Ghost(Seq::empty()),
        };
        proof {
            assert(r@.uploads =~= Seq::empty());
            assert(r@.pending =~= Seq::empty());
            assert(host_log(r@.host, r@.uploads, r@.pending) =~= Seq::empty());
            lemma_faithful_start();
        }
        r
    }

    /// How many buffers there have been.
    pub fn count(&self) -> (r: usize)
        ensures
            r == self@.buffers.len(),
    {
        self.buffers.len()
    }

    /// The size and the usage of a buffer.
    pub fn info(&self, id: usize) -> (r: BufferInfo)
        requires
            id < self@.buffers.len(),
        ensures
            r == self@.buffers[id as int],
    {
        self.buffers[id]
    }

    /// How many buffers of this size and usage wait for reuse.
    pub fn pooled(&self, size: u64, usage: Usage) -> (r: usize)
        requires
            self@.wf(),
        ensures
            r == waiting(self@.buffers, self@.pool, (BufferInfo { size, usage })),
    {
        let info = BufferInfo { size, usage };
        let mut n: usize = 0;
        let mut i: usize = 0;
        while i < self.pool.len()
            invariant
                self@.wf(),
                i <= self.pool@.len(),
                n <= i,
                n == waiting(self@.buffers, self@.pool.take(i as int), info),
            decreases self.pool.len() - i,
        {
            assert(self@.pool.take(i + 1).drop_last() =~= self@.pool.take(i as int));
            assert(self@.pool[i as int] < self@.buffers.len());
            if self.buffers[self.pool[i]] == info {
                n = n + 1;
            }
            i = i + 1;
        }
        assert(self@.pool.take(i as int) =~= self@.pool);
        n
    }

    /// Creates a brand-new buffer of exactly `size` bytes (never from the pool).
    pub fn create_buffer(&mut self, size: u64, usage: Usage) -> (id: usize)
        requires
            old(self)@.wf(),
        ensures
            final(self)@.wf(),
            id == old(self)@.buffers.len(),
            final(self)@ == (DeviceView {
                buffers: old(self)@.buffers.push(BufferInfo { size, usage }),
                live: old(self)@.live.insert(id),
                log: old(self)@.log.push(Event::Acquire(id)),
                ..old(self)@
            }),
            final(self)@.holds(id) == Term::Unset,
            gained(old(self)@, final(self)@, id),
    {
        let id = self.buffers.len();
        self.buffers.push(BufferInfo { size, usage });
        proof {
            lemma_faithful_acquire(
                host_log(self@.host, self@.uploads, self@.pending),
                self.log@,
                id,
            );
            self.live@ = self.live@.insert(id);
            self.log@ = self.log@.push(Event::Acquire(id));
            lemma_acquired(old(self).log@, id);
            assert(self@.uploads =~= old(self)@.uploads);
            assert forall|j: usize|
                #![trigger self@.holds(j)]
                #![trigger old(self)@.holds(j)]
                old(self)@.live.contains(j) implies self@.holds(j) == old(self)@.holds(j) by {
                lemma_others_kept(old(self).log@, Event::Acquire(id), j);
            }
        }
        id
    }

    /// Acquires a buffer of exactly `size` bytes, reusing a recycled one when one of the matching
    /// size and usage is free. Contents are unspecified: the caller must fully write the buffer
    /// before reading it.
    ///
    /// Only buffers produced this way draw from the pool. Buffers that the host writes must not:
    /// the host's writes take effect before all work of the batch that is being recorded.
    pub fn acquire_buffer(&mut self, size: u64, usage: Usage) -> (id: usize)
        requires
            old(self)@.wf(),
        ensures
            final(self)@.wf(),
            final(self)@ == acquired(old(self)@, (BufferInfo { size, usage })),
            id == acquired_id(old(self)@, (BufferInfo { size, usage })),
            final(self)@.buffers[id as int] == (BufferInfo { size, usage }),
            final(self)@.holds(id) == Term::Unset,
            gained(old(self)@, final(self)@, id),
    {
        let info = BufferInfo { size, usage };
        if size <= MAX_POOLED_BYTES {
            let mut i: usize = self.pool.len();
            while i > 0
                invariant
                    self@ == old(self)@,
                    self@.wf(),
                    info == (BufferInfo { size, usage }),
                    size <= MAX_POOLED_BYTES,
                    i <= self.pool@.len(),
                    forall|j: int|
                        i <= j < self@.pool.len() ==> self@.buffers[(#[trigger] self@.pool[j]) as int]
                            != info,
                decreases i,
            {
                i = i - 1;
                assert(self@.pool[i as int] < self@.buffers.len());
                if self.buffers[self.pool[i]] == info {
                    proof {
                        lemma_last_slot(self@.buffers, self@.pool, info, i as int);
                    }
                    let id = self.pool.remove(i);
                    proof {
                        let e = Event::Acquire(id);
                        lemma_faithful_acquire(
                            host_log(self@.host, self@.uploads, self@.pending),
                            self.log@,
                            id,
                        );
                        self.live@ = self.live@.insert(id);
                        self.log@ = self.log@.push(e);
                        lemma_acquired(old(self).log@, id);
                        assert(self@.uploads =~= old(self)@.uploads);
                        assert(old(self)@.pool[i as int] == id);
                        assert forall|k: int| 0 <= k < self@.pool.len() implies (
                        #[trigger] self@.pool[k]) < self@.buffers.len() && !self@.live.contains(
                            self@.pool[k],
                        ) && self@.buffers[self@.pool[k] as int].size <= MAX_POOLED_BYTES by {
                            let o = if k < i {
                                k
                            } else {
                                k + 1
                            };
                            assert(old(self)@.pool[o] == self@.pool[k]);
                        }
                        assert forall|j: usize|
                            #![trigger self@.holds(j)]
                            #![trigger old(self)@.holds(j)]
                            old(self)@.live.contains(j) implies self@.holds(j) == old(self)@.holds(
                            j,
                        ) by {
                            lemma_others_kept(old(self).log@, e, j);
                        }
                    }
                    return id;
                }
            }
            proof {
                lemma_last_slot(self@.buffers, self@.pool, info, -1);
            }
        }
        self.create_buffer(size, usage)
    }

    /// Gives a buffer back for later reuse. Buffers larger than [`MAX_POOLED_BYTES`] are freed
    /// rather than retained.
    pub fn recycle_buffer(&mut self, id: usize)
        requires
            old(self)@.wf(),
            old(self)@.live.contains(id),
        ensures
            final(self)@.wf(),
            final(self)@ == recycled(old(self)@, id),
            same_but(old(self)@, final(self)@, Set::empty()),
    {
        if self.buffers[id].size > MAX_POOLED_BYTES {
            self.free_buffer(id);
            return;
        }
        self.pool.push(id);
        proof {
            self.live@ = self.live@.remove(id);
            assert(self@.uploads =~= old(self)@.uploads);
            assert forall|k: int| 0 <= k < self@.pool.len() implies (#[trigger] self@.pool[k])
                < self@.buffers.len() && !self@.live.contains(self@.pool[k])
                && self@.buffers[self@.pool[k] as int].size <= MAX_POOLED_BYTES by {
                if k < old(self)@.pool.len() {
                    assert(old(self)@.pool[k] == self@.pool[k]);
                }
            }
            assert(self@.pool.no_duplicates()) by {
                assert forall|i: int, j: int|
                    0 <= i < self@.pool.len() && 0 <= j < self@.pool.len() && i != j implies self@.pool[i]
                    != self@.pool[j] by {
                    if i < old(self)@.pool.len() {
                        assert(!old(self)@.live.contains(old(self)@.pool[i]));
                    }
                    if j < old(self)@.pool.len() {
                        assert(!old(self)@.live.contains(old(self)@.pool[j]));
                    }
                }
            }
        }
    }

    /// Frees a buffer.
    pub fn free_buffer(&mut self, id: usize)
        requires
            old(self)@.wf(),
            old(self)@.live.contains(id),
        ensures
            final(self)@.wf(),
            final(self)@ == (DeviceView {
                live: old(self)@.live.remove(id),
                released: old(self)@.released.push(id),
                ..old(self)@
            }),
            same_but(old(self)@, final(self)@, Set::empty()),
    {
        self.released.push(id);
        proof {
            self.live@ = self.live@.remove(id);
            assert(self@.uploads =~= old(self)@.uploads);
        }
    }

    /// Creates a brand-new buffer and has the host write `words` to it.
    pub fn create_with(&mut self, size: u64, usage: Usage, words: &[u32]) -> (id: usize)
        requires
            old(self)@.wf(),
            4 * words@.len() <= size,
        ensures
            final(self)@.wf(),
            id == old(self)@.buffers.len(),
            final(self)@ == (DeviceView {
                buffers: old(self)@.buffers.push(BufferInfo { size, usage }),
                uploads: old(self)@.uploads.push((id, words@)),
                live: old(self)@.live.insert(id),
                log: old(self)@.log.push(Event::Acquire(id)).push(Event::Upload(id, words@)),
                ..old(self)@
            }),
            final(self)@.holds(id) == Term::Words(words@),
            gained(old(self)@, final(self)@, id),
    {
        let id = self.create_buffer(size, usage);
        let ghost mid = self@;
        let copy = slice_to_vec(words);
        assert(copy@ =~= words@);
        self.uploads.push((id, copy));
        proof {
            let e = Event::Upload(id, words@);
            lemma_faithful_write(mid.host, mid.uploads, mid.pending, mid.log, id, words@);
            self.log@ = self.log@.push(e);
            lemma_uploaded(mid.log, id, words@);
            assert(self@.uploads =~= old(self)@.uploads.push((id, words@)));
            assert forall|j: usize|
                #![trigger self@.holds(j)]
                #![trigger old(self)@.holds(j)]
                old(self)@.live.contains(j) implies self@.holds(j) == old(self)@.holds(j) by {
                lemma_others_kept(mid.log, e, j);
                assert(mid.holds(j) == old(self)@.holds(j));
            }
        }
        id
    }

    /// Records work on buffers that are in use.
    pub(crate) fn push(&mut self, op: Op)
        requires
            old(self)@.wf(),
            op@.bound(),
            forall|id: usize| #[trigger] op@.touches(id) ==> old(self)@.live.contains(id),
            old(self)@.live.contains(op@.target()),
        ensures
            final(self)@.wf(),
            final(self)@ == (DeviceView {
                pending: old(self)@.pending.push(op@),
                log: old(self)@.log.push(Event::Run(op@)),
                ..old(self)@
            }),
            final(self)@.holds(op@.target()) == outcome(old(self)@.log, op@),
            same_but(old(self)@, final(self)@, set![op@.target()]),
    {
        let ghost w = op@;
        let ghost a = self@;
        self.ops.push(op);
        proof {
            let e = Event::Run(w);
            lemma_faithful_run(a.host, a.uploads, a.pending, a.log, w);
            self.log@ = self.log@.push(e);
            lemma_ran(a.log, w);
            assert(self@.uploads =~= a.uploads);
            assert(self@.pending =~= a.pending.push(w));
            assert forall|j: usize|
                #![trigger self@.holds(j)]
                #![trigger a.holds(j)]
                a.live.contains(j) && !set![w.target()].contains(j) implies self@.holds(j)
                == a.holds(j) by {
                lemma_others_kept(a.log, e, j);
            }
        }
    }

    /// Hands over what the host has to do: the words that it has to write to buffers, then the work
    /// that it has to run, in order.
    pub fn take_batch(&mut self) -> (r: Batch)
        requires
            old(self)@.wf(),
        ensures
            final(self)@.wf(),
            writes(r.uploads@) == old(self)@.uploads,
            works(r.ops@) == old(self)@.pending,
            final(self)@ == (DeviceView {
                uploads: Seq::empty(),
                pending: Seq::empty(),
                host: host_log(old(self)@.host, old(self)@.uploads, old(self)@.pending),
                ..old(self)@
            }),
    {
        let ghost a = self@;
        let mut uploads: Vec<(usize, Vec<u32>)> = Vec::new();
        let mut ops: Vec<Op> = Vec::new();
        std::mem::swap(&mut uploads, &mut self.uploads);
        std::mem::swap(&mut ops, &mut self.ops);
        proof {
            let h = host_log(a.host, a.uploads, a.pending);
            self.host@ = h;
            assert(self@.uploads =~= Seq::empty());
            assert(self@.pending =~= Seq::empty());
            assert(host_log(h, self@.uploads, self@.pending) =~= h);
        }
        Batch { uploads, ops }
    }

    /// Hands over the buffers that the host has to free.
    pub fn take_released(&mut self) -> (r: Vec<usize>)
        requires
            old(self)@.wf(),
        ensures
            final(self)@.wf(),
            r@ == old(self)@.released,
            final(self)@ == (DeviceView { released: Seq::empty(), ..old(self)@ }),
    {
        let mut r: Vec<usize> = Vec::new();
        std::mem::swap(&mut r, &mut self.released);
        r
    }
}

/// The number of the buffer that a device hands out for this size and usage: the last one that
/// was given back, where one of the size is kept for reuse, else a new one.
pub open spec fn acquired_id(v: DeviceView, info: BufferInfo) -> usize {
    if info.size <= MAX_POOLED_BYTES && v.slot(info) >= 0 {
        v.pool[v.slot(info)]
    } else {
        v.buffers.len() as usize
    }
}

/// A device after it handed out a buffer of this size and usage.
pub open spec fn acquired(v: DeviceView, info: BufferInfo) -> DeviceView {
    let id = acquired_id(v, info);
    if info.size <= MAX_POOLED_BYTES && v.slot(info) >= 0 {
        DeviceView {
            pool: v.pool.remove(v.slot(info)),
            live: v.live.insert(id),
            log: v.log.push(Event::Acquire(id)),
            ..v
        }
    } else {
        DeviceView {
            buffers: v.buffers.push(info),
            live: v.live.insert(id),
            log: v.log.push(Event::Acquire(id)),
            ..v
        }
    }
}

/// A device after a buffer was given back: it waits for reuse, or is freed where it is too large.
pub open spec fn recycled(v: DeviceView, id: usize) -> DeviceView {
    if v.buffers[id as int].size > MAX_POOLED_BYTES {
        DeviceView { live: v.live.remove(id), released: v.released.push(id), ..v }
    } else {
        DeviceView { live: v.live.remove(id), pool: v.pool.push(id), ..v }
    }
}

/// Once the host has done all that it was told to, every buffer holds what the account says.
pub proof fn lemma_host_holds(d: DeviceView, id: usize)
    requires
        d.wf(),
        d.uploads.len() == 0,
        d.pending.len() == 0,
    ensures
        meets(content(d.host, id), d.holds(id)),
{
    reveal(faithful);
    assert(host_log(d.host, d.uploads, d.pending) =~= d.host);
}

/// A buffer that is given back is handed out again for the next request of its size and usage, as
/// long as it is not too large for the pool; the account is then as before but for the contents of
/// the buffer.
pub proof fn lemma_recycled_then_acquired(d: DeviceView, id: usize)
    requires
        d.wf(),
        d.live.contains(id),
        d.buffers[id as int].size <= MAX_POOLED_BYTES,
    ensures
        ({
            let info = d.buffers[id as int];
            &&& acquired_id(recycled(d, id), info) == id
            &&& acquired(recycled(d, id), info) == (DeviceView {
                log: d.log.push(Event::Acquire(id)),
                ..d
            })
        }),
{
    let info = d.buffers[id as int];
    let r = recycled(d, id);
    assert(r.pool.last() == id);
    assert(r.slot(info) == d.pool.len());
    let a = acquired(r, info);
    assert(a.pool =~= d.pool);
    assert(a.live =~= d.live);
}

/// Buffers of up to 64 MiB are kept for reuse when they are given back, and larger ones are freed.
pub proof fn lemma_pool_limit(d: DeviceView, id: usize)
    requires
        d.wf(),
        d.live.contains(id),
    ensures
        ({
            let r = recycled(d, id);
            let large = d.buffers[id as int].size > 64 * 1024 * 1024;
            &&& !r.live.contains(id)
            &&& r.pool.contains(id) == !large
            &&& r.released == if large {
                d.released.push(id)
            } else {
                d.released
            }
            &&& r.live == d.live.remove(id)
            &&& r.buffers == d.buffers
            &&& r.log == d.log
        }),
{
    let r = recycled(d, id);
    if d.buffers[id as int].size > 64 * 1024 * 1024 {
        if r.pool.contains(id) {
            let i = choose|i: int| 0 <= i < d.pool.len() && d.pool[i] == id;
            assert(!d.live.contains(d.pool[i]));
        }
    } else {
        assert(r.pool.last() == id);
    }
}

/// A buffer that is too large for the pool is freed when it is given back, and never handed out
/// again.
pub proof fn lemma_large_is_freed(d: DeviceView, id: usize, info: BufferInfo)
    requires
        d.wf(),
        d.live.contains(id),
        d.buffers.len() <= usize::MAX,
        d.buffers[id as int].size > MAX_POOLED_BYTES,
    ensures
        recycled(d, id).released == d.released.push(id),
        recycled(d, id).pool == d.pool,
        acquired_id(recycled(d, id), info) != id,
{
    if info.size <= MAX_POOLED_BYTES && d.slot(info) >= 0 {
        lemma_slot_bound(d.buffers, d.pool, info);
        assert(!d.live.contains(d.pool[d.slot(info)]));
    }
}

proof fn lemma_slot_bound(buffers: Seq<BufferInfo>, pool: Seq<usize>, info: BufferInfo)
    ensures
        -1 <= last_slot(buffers, pool, info) < pool.len(),
    decreases pool.len(),
{
    if pool.len() > 0 {
        lemma_slot_bound(buffers, pool.drop_last(), info);
    }
}

} // verus!
