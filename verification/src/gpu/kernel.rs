//! The kernel-dispatch helpers.

use vstd::prelude::*;

use crate::coverage::{lemma_add, lemma_copied, narrow, summed};
use crate::gpu::device::{gained, same_but, BufferInfo, Device, DeviceView, Usage};
use crate::gpu::elements::value;
use crate::gpu::memory::{inputs, Event, Groups, Kernel, Op, Term, Work};
use crate::gpu::recorder::Recorder;
use crate::gpu::tensor::{bytes_of, Tensor};
use crate::shape::numel;
use crate::text::{cat2, dec, decimal, lemma_dec};

verus! {

/// The name under which a kernel's pipeline is kept.
pub open spec fn key_of(kernel: Kernel) -> Seq<char> {
    match kernel {
        Kernel::Add => "add"@,
        Kernel::Swiglu => "swiglu"@,
        Kernel::Geglu => "geglu"@,
        Kernel::MulScalar => "mul_scalar"@,
        Kernel::EmbeddingF16 => "embedding_f16"@,
        Kernel::KvWrite => "kv_write"@,
        Kernel::LinearF16w => "linear_f16w"@,
        Kernel::MatmulF32 => "matmul_f32"@,
        Kernel::MatmulF16w => "matmul_f16w"@,
        Kernel::AttnPrefill { head_dim } => "attn_prefill_hd"@ + dec(head_dim as nat),
        Kernel::AttnDecode { head_dim } => "attn_decode_hd"@ + dec(head_dim as nat),
        Kernel::Softmax => "softmax"@,
        Kernel::RmsNorm => "rmsnorm"@,
        Kernel::Rope => "rope"@,
        Kernel::Argmax => "argmax"@,
    }
}

/// Different kernels are kept under different names.
pub proof fn lemma_keys_differ(a: Kernel, b: Kernel)
    requires
        key_of(a) == key_of(b),
    ensures
        a == b,
{
    reveal_strlit("add");
    reveal_strlit("swiglu");
    reveal_strlit("geglu");
    reveal_strlit("mul_scalar");
    reveal_strlit("embedding_f16");
    reveal_strlit("kv_write");
    reveal_strlit("linear_f16w");
    reveal_strlit("matmul_f32");
    reveal_strlit("matmul_f16w");
    reveal_strlit("attn_prefill_hd");
    reveal_strlit("attn_decode_hd");
    reveal_strlit("softmax");
    reveal_strlit("rmsnorm");
    reveal_strlit("rope");
    reveal_strlit("argmax");
    let (x, y) = (key_of(a), key_of(b));
    assert(x.len() == y.len());
    assert(x[0] == y[0] && x[1] == y[1] && x[5] == y[5]);
    match (a, b) {
        (Kernel::AttnPrefill { head_dim: m }, Kernel::AttnPrefill { head_dim: n }) => {
            lemma_dec(m as nat);
            lemma_dec(n as nat);
            assert(x.skip(15) =~= dec(m as nat));
            assert(y.skip(15) =~= dec(n as nat));
        },
        (Kernel::AttnDecode { head_dim: m }, Kernel::AttnDecode { head_dim: n }) => {
            lemma_dec(m as nat);
            lemma_dec(n as nat);
            assert(x.skip(14) =~= dec(m as nat));
            assert(y.skip(14) =~= dec(n as nat));
        },
        _ => {},
    }
}

impl Kernel {
    /// The name under which the kernel's pipeline is kept.
    pub fn key(self) -> (r: String)
        ensures
            r@ == key_of(self),
    {
        match self {
            Kernel::Add => "add".to_owned(),
            Kernel::Swiglu => "swiglu".to_owned(),
            Kernel::Geglu => "geglu".to_owned(),
            Kernel::MulScalar => "mul_scalar".to_owned(),
            Kernel::EmbeddingF16 => "embedding_f16".to_owned(),
            Kernel::KvWrite => "kv_write".to_owned(),
            Kernel::LinearF16w => "linear_f16w".to_owned(),
            Kernel::MatmulF32 => "matmul_f32".to_owned(),
            Kernel::MatmulF16w => "matmul_f16w".to_owned(),
            Kernel::AttnPrefill { head_dim } => cat2(
                "attn_prefill_hd",
                decimal(head_dim as u64).as_str(),
            ),
            Kernel::AttnDecode { head_dim } => cat2(
                "attn_decode_hd",
                decimal(head_dim as u64).as_str(),
            ),
            Kernel::Softmax => "softmax".to_owned(),
            Kernel::RmsNorm => "rmsnorm".to_owned(),
            Kernel::Rope => "rope".to_owned(),
            Kernel::Argmax => "argmax".to_owned(),
        }
    }
}

/// Whether buffers are in use and may be bound in this way.
pub open spec fn bindable(d: DeviceView, ids: Seq<usize>, usage: Usage) -> bool {
    forall|i: int|
        0 <= i < ids.len() ==> d.live.contains(#[trigger] ids[i]) && d.buffers[ids[i] as int].usage
            == usage
}

/// A recorder's device after a kernel ran: the buffer that the kernel writes holds what it makes
/// of its inputs, nothing else changes.
pub open spec fn ran(
    a: DeviceView,
    b: DeviceView,
    kernel: Kernel,
    storage: Seq<usize>,
    uniform: Seq<usize>,
    groups: Groups,
) -> bool {
    b == (DeviceView {
        pending: a.pending.push(Work::Dispatch { kernel, storage, uniform, groups }),
        log: a.log.push(Event::Run(Work::Dispatch { kernel, storage, uniform, groups })),
        ..a
    })
}

/// What a kernel makes of these inputs over what its output held.
pub open spec fn made(kernel: Kernel, groups: Groups, inputs: Seq<Term>, over: Term) -> Term {
    Term::Made { kernel, groups, inputs, over: Box::new(over) }
}

/// Records one compute dispatch of a kernel over `storage` (bound at 0..N) with the given
/// workgroup counts.
pub fn dispatch(rec: &mut Recorder, kernel: Kernel, storage: Vec<usize>, groups: Groups)
    requires
        old(rec).wf(),
        kernel.out() < storage@.len(),
        bindable(old(rec)@, storage@, Usage::Storage),
    ensures
        final(rec).wf(),
        ran(old(rec)@, final(rec)@, kernel, storage@, seq![], groups),
        final(rec)@.holds(storage@[kernel.out()]) == made(
            kernel,
            groups,
            inputs(old(rec)@.log, kernel, storage@, seq![]),
            old(rec)@.holds(storage@[kernel.out()]),
        ),
        same_but(old(rec)@, final(rec)@, set![storage@[kernel.out()]]),
{
    let uniform: Vec<usize> = Vec::new();
    assert(uniform@ =~= seq![]);
    dispatch_with_uniform(rec, kernel, storage, uniform, groups);
}

/// Like [`dispatch`], but the buffers in `uniform` are bound as uniform ones at the bindings
/// immediately after the `storage` buffers. Kernels that must read scalars as uniform values take
/// them so.
pub fn dispatch_with_uniform(
    rec: &mut Recorder,
    kernel: Kernel,
    storage: Vec<usize>,
    uniform: Vec<usize>,
    groups: Groups,
)
    requires
        old(rec).wf(),
        kernel.out() < storage@.len(),
        bindable(old(rec)@, storage@, Usage::Storage),
        bindable(old(rec)@, uniform@, Usage::Uniform),
    ensures
        final(rec).wf(),
        ran(old(rec)@, final(rec)@, kernel, storage@, uniform@, groups),
        final(rec)@.holds(storage@[kernel.out()]) == made(
            kernel,
            groups,
            inputs(old(rec)@.log, kernel, storage@, uniform@),
            old(rec)@.holds(storage@[kernel.out()]),
        ),
        same_but(old(rec)@, final(rec)@, set![storage@[kernel.out()]]),
{
    let op = Op::Dispatch { kernel, storage, uniform, groups };
    proof {
        assert forall|id: usize| #[trigger] op@.touches(id) implies rec@.live.contains(id) by {
            if storage@.contains(id) {
                let i = choose|i: int| 0 <= i < storage@.len() && storage@[i] == id;
                assert(rec@.live.contains(storage@[i]));
            } else {
                let i = choose|i: int| 0 <= i < uniform@.len() && uniform@[i] == id;
                assert(rec@.live.contains(uniform@[i]));
            }
        }
        assert(rec@.live.contains(storage@[kernel.out()]));
    }
    rec.push(op);
}

/// A binding of a pipeline's only bind group.
#[derive(Clone, Copy, Debug, PartialEq, Eq, Structural)]
pub struct Binding {
    pub index: u32,
    pub usage: Usage,
}

/// The bindings of a pipeline: `n_storage` storage buffers from binding zero on, then `n_uniform`
/// uniform buffers.
pub fn binding_layout(n_storage: usize, n_uniform: usize) -> (r: Vec<Binding>)
    requires
        n_storage + n_uniform <= u32::MAX,
    ensures
        r@ == Seq::new(
            (n_storage + n_uniform) as nat,
            |i: int|
                Binding {
                    index: i as u32,
                    usage: if i < n_storage {
                        Usage::Storage
                    } else {
                        Usage::Uniform
                    },
                },
        ),
{
    let mut out: Vec<Binding> = Vec::new();
    let mut i: usize = 0;
    while i < n_storage || i - n_storage < n_uniform
        invariant
            n_storage + n_uniform <= u32::MAX,
            i <= n_storage + n_uniform,
            out@.len() == i,
            forall|k: int|
                0 <= k < i ==> #[trigger] out@[k] == (Binding {
                    index: k as u32,
                    usage: if k < n_storage {
                        Usage::Storage
                    } else {
                        Usage::Uniform
                    },
                }),
        decreases n_storage + n_uniform - i,
    {
        out.push(
            Binding {
                index: i as u32,
                usage: if i < n_storage {
                    Usage::Storage
                } else {
                    Usage::Uniform
                },
            },
        );
        i = i + 1;
    }
    out
}

/// The size of a uniform buffer for `n` words: a multiple of 16 bytes, and at least 16.
pub open spec fn uniform_size(n: nat) -> nat {
    if n <= 4 {
        16
    } else {
        (4 * n + 15) / 16 * 16
    }
}

/// A uniform buffer has room for its words and is made of whole vectors of four, at least one, and
/// no more than it needs.
pub proof fn lemma_uniform_size(n: nat)
    ensures
        uniform_size(n) % 16 == 0,
        uniform_size(n) >= 16,
        uniform_size(n) >= 4 * n,
        n > 0 ==> uniform_size(n) < 4 * n + 16,
{
}

/// Creates a small uniform buffer initialized from `data` (padded to 16 bytes for reads of vectors
/// of four). For passing scalar sizes to a kernel as uniform values.
pub fn uniform_u32(dev: &mut Device, data: &[u32]) -> (r: usize)
    requires
        old(dev)@.wf(),
        4 * data@.len() + 15 <= usize::MAX,
    ensures
        final(dev)@.wf(),
        r == old(dev)@.buffers.len(),
        final(dev)@ == (DeviceView {
            buffers: old(dev)@.buffers.push(
                BufferInfo { size: uniform_size(data@.len()) as u64, usage: Usage::Uniform },
            ),
            uploads: old(dev)@.uploads.push((r, data@)),
            live: old(dev)@.live.insert(r),
            log: old(dev)@.log.push(Event::Acquire(r)).push(Event::Upload(r, data@)),
            ..old(dev)@
        }),
        final(dev)@.holds(r) == Term::Words(data@),
        gained(old(dev)@, final(dev)@, r),
{
    let n = data.len();
    let size: u64 = if n <= 4 {
        16
    } else {
        ((4 * n + 15) / 16 * 16) as u64
    };
    dev.create_with(size, Usage::Uniform, data)
}

/// Copies `n` 4-byte elements from `src` (element offset `src_off`) into `dst` (element offset
/// `dst_off`) without a shader, for example to slice the last hidden row before the LM head.
pub fn copy_range(
    rec: &mut Recorder,
    src: &Tensor,
    dst: &Tensor,
    src_off: usize,
    dst_off: usize,
    n: usize,
)
    requires
        old(rec).wf(),
        src.ok(old(rec)@),
        dst.ok(old(rec)@),
        src.buffer != dst.buffer,
        4 * (src_off + n) <= bytes_of(src.shape@, src.dtype),
        4 * (dst_off + n) <= bytes_of(dst.shape@, dst.dtype),
    ensures
        final(rec).wf(),
        final(rec)@.live == old(rec)@.live,
        dst.in_dev(final(rec)@) == copied(
            src.in_dev(old(rec)@),
            src_off as int,
            n as int,
            dst.in_dev(old(rec)@),
            dst_off as int,
        ),
        same_but(old(rec)@, final(rec)@, set![dst.buffer]),
        final(rec)@.buffers == old(rec)@.buffers,
        forall|i: int|
            #[trigger] value(dst.in_dev(final(rec)@), i) == if dst_off <= i < dst_off + n {
                value(src.in_dev(old(rec)@), src_off + i - dst_off)
            } else {
                value(dst.in_dev(old(rec)@), i)
            },
{
    proof {
        let (from, over) = (src.in_dev(rec@), dst.in_dev(rec@));
        assert forall|i: int|
            #[trigger] value(
                copied(from, src_off as int, n as int, over, dst_off as int),
                i,
            ) == if dst_off <= i < dst_off + n {
                value(from, src_off + i - dst_off)
            } else {
                value(over, i)
            } by {
            lemma_copied(from, src_off as int, n as int, over, dst_off as int, i);
        }
    }
    assert(rec@.live.contains(src.buffer) && rec@.live.contains(dst.buffer));
    let op = Op::Copy {
        src: src.buffer,
        src_bytes: (src_off * 4) as u64,
        dst: dst.buffer,
        dst_bytes: (dst_off * 4) as u64,
        bytes: (n * 4) as u64,
    };
    rec.push(op);
}

/// `n` 4-byte elements of `from`, from element `at` on, copied to element `to` of what held `over`.
pub open spec fn copied(from: Term, at: int, n: int, over: Term, to: int) -> Term {
    Term::Copied {
        from: Box::new(from),
        at: (4 * at) as u64,
        bytes: (4 * n) as u64,
        over: Box::new(over),
        to: (4 * to) as u64,
    }
}

/// The number of groups of `size` that hold `n` items.
pub open spec fn group_count(n: u32, size: u32) -> u32 {
    if n % size == 0 {
        (n / size) as u32
    } else {
        (n / size + 1) as u32
    }
}

/// The number of groups of `size` that hold `n` items.
pub fn groups_for(n: u32, size: u32) -> (r: u32)
    requires
        size > 1,
    ensures
        r == group_count(n, size),
        n <= r * size,
        r > 0 ==> (r - 1) * size < n,
{
    let q = n / size;
    assert(q <= n / 2 && n == q * size + n % size) by (nonlinear_arith)
        requires
            size > 1,
            q == n / size,
    ;
    assert((q + 1) * size == q * size + size) by (nonlinear_arith);
    assert((q - 1) * size == q * size - size) by (nonlinear_arith);
    if n % size == 0 {
        q
    } else {
        q + 1
    }
}

/// The element-wise sum of two tensors of `n` elements, in a buffer that held `over`.
pub open spec fn add_term(a: Term, b: Term, n: u32, over: Term) -> Term {
    made(Kernel::Add, Groups { x: group_count(n, 64), y: 1, z: 1 }, seq![a, b], over)
}

/// Element-wise `out = a + b`. Records into `rec`; the caller submits.
pub fn add(rec: &mut Recorder, a: &Tensor, b: &Tensor, out: &Tensor)
    requires
        old(rec).wf(),
        a.ok(old(rec)@),
        b.ok(old(rec)@),
        out.ok(old(rec)@),
    ensures
        final(rec).wf(),
        final(rec)@.live == old(rec)@.live,
        out.in_dev(final(rec)@) == add_term(
            a.in_dev(old(rec)@),
            b.in_dev(old(rec)@),
            numel(out.shape@) as u32,
            out.in_dev(old(rec)@),
        ),
        same_but(old(rec)@, final(rec)@, set![out.buffer]),
        narrow(numel(out.shape@) as int) ==> summed(
            out.in_dev(final(rec)@),
            a.in_dev(old(rec)@),
            b.in_dev(old(rec)@),
            numel(out.shape@) as int,
        ),
{
    let n = out.numel() as u32;
    let storage: Vec<usize> = vec![a.buffer, b.buffer, out.buffer];
    let groups = Groups { x: groups_for(n, 64), y: 1, z: 1 };
    proof {
        lemma_add(a.in_dev(rec@), b.in_dev(rec@), n, out.in_dev(rec@));
        assert(inputs(rec@.log, Kernel::Add, storage@, seq![]) =~= seq![
            a.in_dev(rec@),
            b.in_dev(rec@),
        ]);
    }
    dispatch(rec, Kernel::Add, storage, groups);
}

} // verus!
