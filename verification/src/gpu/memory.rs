//! What recorded work leaves in the buffers of a device, as terms over the data of the host.

use vstd::prelude::*;

verus! {

/// A compute kernel. Attention kernels are compiled for one head size.
#[derive(Clone, Copy, Debug, PartialEq, Eq, Structural)]
pub enum Kernel {
    Add,
    Swiglu,
    Geglu,
    MulScalar,
    EmbeddingF16,
    KvWrite,
    LinearF16w,
    MatmulF32,
    MatmulF16w,
    AttnPrefill { head_dim: usize },
    AttnDecode { head_dim: usize },
    Softmax,
    RmsNorm,
    Rope,
    Argmax,
}

impl Kernel {
    /// The binding that the kernel writes; it reads the others.
    pub open spec fn out(self) -> int {
        match self {
            Kernel::KvWrite => 0,
            Kernel::MulScalar | Kernel::Softmax | Kernel::Argmax => 1,
            Kernel::AttnPrefill { .. } | Kernel::AttnDecode { .. } | Kernel::Rope => 3,
            _ => 2,
        }
    }
}

/// A number of workgroups in each of three dimensions.
#[derive(Clone, Copy, Debug, PartialEq, Eq, Structural)]
pub struct Groups {
    pub x: u32,
    pub y: u32,
    pub z: u32,
}

/// A piece of GPU work, on buffers that are known by number.
#[derive(Debug)]
pub enum Op {
    /// Runs a kernel over storage buffers, bound in order from zero on, and uniform buffers, bound
    /// after them.
    Dispatch { kernel: Kernel, storage: Vec<usize>, uniform: Vec<usize>, groups: Groups },
    /// Copies bytes from one buffer to another.
    Copy { src: usize, src_bytes: u64, dst: usize, dst_bytes: u64, bytes: u64 },
}

/// An [`Op`] with its buffers as sequences.
#[verifier::ext_equal]
pub enum Work {
    Dispatch { kernel: Kernel, storage: Seq<usize>, uniform: Seq<usize>, groups: Groups },
    Copy { src: usize, src_bytes: u64, dst: usize, dst_bytes: u64, bytes: u64 },
}

impl View for Op {
    type V = Work;

    open spec fn view(&self) -> Work {
        match self {
            Op::Dispatch { kernel, storage, uniform, groups } => Work::Dispatch {
                kernel: *kernel,
                storage: storage@,
                uniform: uniform@,
                groups: *groups,
            },
            Op::Copy { src, src_bytes, dst, dst_bytes, bytes } => Work::Copy {
                src: *src,
                src_bytes: *src_bytes,
                dst: *dst,
                dst_bytes: *dst_bytes,
                bytes: *bytes,
            },
        }
    }
}

impl Work {
    /// The buffer that the work writes.
    pub open spec fn target(self) -> usize {
        match self {
            Work::Dispatch { kernel, storage, .. } => storage[kernel.out()],
            Work::Copy { dst, .. } => dst,
        }
    }

    /// Whether the work reads or writes a buffer.
    pub open spec fn touches(self, id: usize) -> bool {
        match self {
            Work::Dispatch { storage, uniform, .. } => storage.contains(id) || uniform.contains(
                id,
            ),
            Work::Copy { src, dst, .. } => id == src || id == dst,
        }
    }

    /// Whether the buffer that the work writes is bound.
    pub open spec fn bound(self) -> bool {
        match self {
            Work::Dispatch { kernel, storage, .. } => kernel.out() < storage.len(),
            Work::Copy { .. } => true,
        }
    }
}

/// What happens to the buffers of a device.
pub enum Event {
    /// A buffer is handed out with unspecified contents.
    Acquire(usize),
    /// The host writes words to a buffer, from its beginning.
    Upload(usize, Seq<u32>),
    /// Work runs.
    Run(Work),
}

impl Event {
    /// The buffer whose contents change.
    pub open spec fn target(self) -> usize {
        match self {
            Event::Acquire(id) => id,
            Event::Upload(id, _) => id,
            Event::Run(w) => w.target(),
        }
    }
}

/// The contents of a buffer.
#[verifier::ext_equal]
pub enum Term {
    /// Unspecified.
    Unset,
    /// Words that the host wrote.
    Words(Seq<u32>),
    /// What a kernel makes of its inputs, in a buffer that held `over`.
    Made { kernel: Kernel, groups: Groups, inputs: Seq<Term>, over: Box<Term> },
    /// `bytes` bytes from byte `at` of `from` on, copied to byte `to` of a buffer that held
    /// `over`.
    Copied { from: Box<Term>, at: u64, bytes: u64, over: Box<Term>, to: u64 },
}

/// What a buffer holds after the events of a log.
#[verifier::opaque]
pub open spec fn content(log: Seq<Event>, id: usize) -> Term
    decreases log.len(), 0nat,
{
    if log.len() == 0 {
        Term::Unset
    } else {
        let before = log.drop_last();
        let e = log.last();
        if e.target() != id {
            content(before, id)
        } else {
            match e {
                Event::Acquire(_) => Term::Unset,
                Event::Upload(_, words) => Term::Words(words),
                Event::Run(Work::Dispatch { kernel, storage, uniform, groups }) => Term::Made {
                    kernel,
                    groups,
                    inputs: inputs(before, kernel, storage, uniform),
                    over: Box::new(content(before, id)),
                },
                Event::Run(Work::Copy { src, src_bytes, dst_bytes, bytes, .. }) => Term::Copied {
                    from: Box::new(content(before, src)),
                    at: src_bytes,
                    bytes,
                    over: Box::new(content(before, id)),
                    to: dst_bytes,
                },
            }
        }
    }
}

/// What a kernel reads: its storage buffers but for the one that it writes, then its uniform
/// buffers.
pub open spec fn inputs(
    log: Seq<Event>,
    kernel: Kernel,
    storage: Seq<usize>,
    uniform: Seq<usize>,
) -> Seq<Term>
    decreases log.len(), 1nat,
{
    Seq::new(
        (storage.len() - 1 + uniform.len()) as nat,
        |i: int| content(log, input_id(kernel, storage, uniform, i)),
    )
}

/// The buffer that a kernel reads as its `i`-th input.
pub open spec fn input_id(
    kernel: Kernel,
    storage: Seq<usize>,
    uniform: Seq<usize>,
    i: int,
) -> usize {
    if i < kernel.out() {
        storage[i]
    } else if i < storage.len() - 1 {
        storage[i + 1]
    } else {
        uniform[i - (storage.len() - 1)]
    }
}

/// An event leaves every other buffer as it is.
pub proof fn lemma_others_kept(log: Seq<Event>, e: Event, id: usize)
    requires
        e.target() != id,
    ensures
        content(log.push(e), id) == content(log, id),
{
    reveal_with_fuel(content, 2);
    assert(log.push(e).drop_last() =~= log);
}

/// What a buffer that is handed out holds.
pub proof fn lemma_acquired(log: Seq<Event>, id: usize)
    ensures
        content(log.push(Event::Acquire(id)), id) == Term::Unset,
{
    reveal_with_fuel(content, 2);
}

/// What a buffer that the host wrote holds.
pub proof fn lemma_uploaded(log: Seq<Event>, id: usize, words: Seq<u32>)
    ensures
        content(log.push(Event::Upload(id, words)), id) == Term::Words(words),
{
    reveal_with_fuel(content, 2);
}

/// What a buffer that work wrote holds.
pub proof fn lemma_ran(log: Seq<Event>, w: Work)
    ensures
        content(log.push(Event::Run(w)), w.target()) == outcome(log, w),
{
    reveal_with_fuel(content, 2);
    assert(log.push(Event::Run(w)).drop_last() =~= log);
}

/// What work leaves in the buffer that it writes.
pub open spec fn outcome(log: Seq<Event>, w: Work) -> Term {
    match w {
        Work::Dispatch { kernel, storage, uniform, groups } => Term::Made {
            kernel,
            groups,
            inputs: inputs(log, kernel, storage, uniform),
            over: Box::new(content(log, w.target())),
        },
        Work::Copy { src, src_bytes, dst_bytes, bytes, .. } => Term::Copied {
            from: Box::new(content(log, src)),
            at: src_bytes,
            bytes,
            over: Box::new(content(log, w.target())),
            to: dst_bytes,
        },
    }
}

/// A kernel reads what its input buffers hold.
proof fn lemma_input(
    log: Seq<Event>,
    kernel: Kernel,
    storage: Seq<usize>,
    uniform: Seq<usize>,
    i: int,
)
    requires
        0 <= i < inputs(log, kernel, storage, uniform).len(),
    ensures
        inputs(log, kernel, storage, uniform)[i] == content(
            log,
            input_id(kernel, storage, uniform, i),
        ),
{
    reveal_with_fuel(content, 2);
}

/// What a host does: after `before`, it writes words to buffers and then runs work.
pub open spec fn host_log(
    before: Seq<Event>,
    writes: Seq<(usize, Seq<u32>)>,
    works: Seq<Work>,
) -> Seq<Event> {
    before + written(writes) + run_all(works)
}

/// Writes of the host, as events.
pub open spec fn written(writes: Seq<(usize, Seq<u32>)>) -> Seq<Event> {
    Seq::new(writes.len(), |i: int| Event::Upload(writes[i].0, writes[i].1))
}

/// Work that runs, as events.
pub open spec fn run_all(works: Seq<Work>) -> Seq<Event> {
    Seq::new(works.len(), |i: int| Event::Run(works[i]))
}

/// Whether contents are as an account has them. Where the account leaves contents open, they may be
/// anything.
pub open spec fn meets(actual: Term, account: Term) -> bool
    decreases account,
{
    match account {
        Term::Unset => true,
        Term::Words(_) => actual == account,
        Term::Made { kernel, groups, inputs, over } => {
            &&& actual matches Term::Made { kernel: k, groups: g, inputs: i, over: o }
            &&& k == kernel
            &&& g == groups
            &&& i.len() == inputs.len()
            &&& forall|j: int| 0 <= j < inputs.len() ==> meets(i[j], #[trigger] inputs[j])
            &&& meets(*o, *over)
        },
        Term::Copied { from, at, bytes, over, to } => {
            &&& actual matches Term::Copied { from: f, at: a, bytes: b, over: o, to: t }
            &&& a == at
            &&& b == bytes
            &&& t == to
            &&& meets(*f, *from)
            &&& meets(*o, *over)
        },
    }
}

/// Whether all buffers of a host hold what an account says.
#[verifier::opaque]
pub open spec fn faithful(host: Seq<Event>, log: Seq<Event>) -> bool {
    forall|id: usize| meets(#[trigger] content(host, id), content(log, id))
}

/// A host that did nothing meets an empty account.
pub proof fn lemma_faithful_start()
    ensures
        faithful(Seq::empty(), Seq::empty()),
{
    reveal(faithful);
    reveal_with_fuel(content, 2);
}

/// Handing out a buffer takes nothing of the host.
pub proof fn lemma_faithful_acquire(host: Seq<Event>, log: Seq<Event>, id: usize)
    requires
        faithful(host, log),
    ensures
        faithful(host, log.push(Event::Acquire(id))),
{
    reveal(faithful);
    let e = Event::Acquire(id);
    assert forall|j: usize| meets(#[trigger] content(host, j), content(log.push(e), j)) by {
        if j == id {
            lemma_acquired(log, id);
        } else {
            lemma_others_kept(log, e, j);
        }
    }
}

/// Work that is recorded last runs last.
pub proof fn lemma_faithful_run(
    before: Seq<Event>,
    writes: Seq<(usize, Seq<u32>)>,
    works: Seq<Work>,
    log: Seq<Event>,
    w: Work,
)
    requires
        faithful(host_log(before, writes, works), log),
    ensures
        faithful(host_log(before, writes, works.push(w)), log.push(Event::Run(w))),
{
    reveal(faithful);
    let h = host_log(before, writes, works);
    let e = Event::Run(w);
    assert(host_log(before, writes, works.push(w)) =~= h.push(e));
    assert forall|j: usize| meets(#[trigger] content(h.push(e), j), content(log.push(e), j)) by {
        assert(meets(content(h, j), content(log, j)));
        if j == w.target() {
            lemma_ran(h, w);
            lemma_ran(log, w);
            match w {
                Work::Dispatch { kernel, storage, uniform, .. } => {
                    let (p, q) = (
                        inputs(h, kernel, storage, uniform),
                        inputs(log, kernel, storage, uniform),
                    );
                    assert forall|i: int| 0 <= i < q.len() implies meets(p[i], #[trigger] q[i]) by {
                        let id = input_id(kernel, storage, uniform, i);
                        assert(meets(content(h, id), content(log, id)));
                        lemma_input(h, kernel, storage, uniform, i);
                        lemma_input(log, kernel, storage, uniform, i);
                    }
                },
                Work::Copy { src, .. } => {
                    assert(meets(content(h, src), content(log, src)));
                },
            }
        } else {
            lemma_others_kept(h, e, j);
            lemma_others_kept(log, e, j);
        }
    }
}

/// Words that the host writes to a buffer may as well be written before work that does not touch
/// the buffer.
pub proof fn lemma_write_early(
    before: Seq<Event>,
    id: usize,
    words: Seq<u32>,
    works: Seq<Work>,
    j: usize,
)
    requires
        forall|k: int|
            0 <= k < works.len() ==> (#[trigger] works[k]).bound() && !works[k].touches(id)
                && works[k].target() != id,
    ensures
        content(before.push(Event::Upload(id, words)) + run_all(works), j) == if j == id {
            Term::Words(words)
        } else {
            content(before + run_all(works), j)
        },
    decreases works.len(),
{
    let u = Event::Upload(id, words);
    let (x, y) = (before.push(u) + run_all(works), before + run_all(works));
    if works.len() == 0 {
        assert(x =~= before.push(u));
        assert(y =~= before);
        if j == id {
            lemma_uploaded(before, id, words);
        } else {
            lemma_others_kept(before, u, j);
        }
    } else {
        let w = works.last();
        let rest = works.drop_last();
        let (p, q) = (before.push(u) + run_all(rest), before + run_all(rest));
        assert forall|k: int| 0 <= k < rest.len() implies (#[trigger] rest[k]).bound()
            && !rest[k].touches(id) && rest[k].target() != id by {
            assert(rest[k] == works[k]);
        }
        assert(x =~= p.push(Event::Run(w)));
        assert(y =~= q.push(Event::Run(w)));
        lemma_write_early(before, id, words, rest, j);
        if j == w.target() {
            lemma_ran(p, w);
            lemma_ran(q, w);
            match w {
                Work::Dispatch { kernel, storage, uniform, .. } => {
                    assert forall|i: int|
                        0 <= i < storage.len() - 1 + uniform.len() implies #[trigger] inputs(
                        p,
                        kernel,
                        storage,
                        uniform,
                    )[i] == inputs(q, kernel, storage, uniform)[i] by {
                        let m = input_id(kernel, storage, uniform, i);
                        assert(storage.contains(m) || uniform.contains(m));
                        lemma_write_early(before, id, words, rest, m);
                        lemma_input(p, kernel, storage, uniform, i);
                        lemma_input(q, kernel, storage, uniform, i);
                    }
                    assert(inputs(p, kernel, storage, uniform) =~= inputs(
                        q,
                        kernel,
                        storage,
                        uniform,
                    ));
                },
                Work::Copy { src, .. } => {
                    lemma_write_early(before, id, words, rest, src);
                },
            }
        } else {
            lemma_others_kept(p, Event::Run(w), j);
            lemma_others_kept(q, Event::Run(w), j);
        }
    }
}

/// Words for a buffer that no work of the batch touches may be written before all of the batch.
pub proof fn lemma_faithful_write(
    before: Seq<Event>,
    writes: Seq<(usize, Seq<u32>)>,
    works: Seq<Work>,
    log: Seq<Event>,
    id: usize,
    words: Seq<u32>,
)
    requires
        faithful(host_log(before, writes, works), log),
        forall|k: int|
            0 <= k < works.len() ==> (#[trigger] works[k]).bound() && !works[k].touches(id)
                && works[k].target() != id,
    ensures
        faithful(
            host_log(before, writes.push((id, words)), works),
            log.push(Event::Upload(id, words)),
        ),
{
    reveal(faithful);
    let u = Event::Upload(id, words);
    let b = before + written(writes);
    let h = host_log(before, writes, works);
    let g = host_log(before, writes.push((id, words)), works);
    assert(written(writes.push((id, words))) =~= written(writes).push(u));
    assert(g =~= b.push(u) + run_all(works));
    assert(h =~= b + run_all(works));
    assert forall|j: usize| meets(#[trigger] content(g, j), content(log.push(u), j)) by {
        lemma_write_early(b, id, words, works, j);
        assert(meets(content(h, j), content(log, j)));
        if j == id {
            lemma_uploaded(log, id, words);
        } else {
            lemma_others_kept(log, u, j);
        }
    }
}

} // verus!
