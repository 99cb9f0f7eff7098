//! The compute kernels' dispatch wrappers. Each records into a `Recorder`; the caller submits.
//!
//! For each kernel a spec function tells what it leaves in its output, as a term over what its
//! inputs hold: which kernel runs, over how many workgroups, with which parameters.

use vstd::prelude::*;

use crate::coverage::{
    attends, attends_cache, belled, gathered, largest_of, lemma_argmax, lemma_attn_decode,
    lemma_attn_prefill, lemma_embedding, lemma_geglu, lemma_kv_write, lemma_linear, lemma_matmul,
    lemma_matmul_f16w, lemma_mul_scalar, lemma_rmsnorm, lemma_rope, lemma_softmax, lemma_swiglu,
    multiplied, multiplied_halves, narrow, normalized, projected, scaled_by, shared_out, stored,
    swished, turned_by,
};
use crate::gpu::device::{same_but, DeviceView, Usage};
use crate::gpu::kernel::{
    bindable, dispatch, dispatch_with_uniform, group_count, groups_for, made,
};
use crate::gpu::memory::{inputs, Groups, Kernel, Term};
use crate::gpu::recorder::Recorder;
use crate::gpu::tensor::{lemma_numel_1, Tensor};

verus! {

/// What a kernel reads of its storage buffers: all but the one that it writes.
pub open spec fn others(d: DeviceView, kernel: Kernel, storage: Seq<usize>) -> Seq<Term> {
    Seq::new(
        (storage.len() - 1) as nat,
        |i: int|
            d.holds(
                if i < kernel.out() {
                    storage[i]
                } else {
                    storage[i + 1]
                },
            ),
    )
}

/// Whether `b` is `a` but for one buffer, which now holds `t`.
pub open spec fn wrote(a: DeviceView, b: DeviceView, id: usize, t: Term) -> bool {
    &&& b.live == a.live
    &&& b.holds(id) == t
    &&& same_but(a, b, set![id])
}

/// Workgroups along one dimension.
pub open spec fn line(x: u32) -> Groups {
    Groups { x, y: 1, z: 1 }
}

/// Runs a kernel over `storage` and a buffer of parameters, bound after them.
fn run(rec: &mut Recorder, kernel: Kernel, storage: Vec<usize>, params: &[u32], groups: Groups)
    requires
        old(rec).wf(),
        kernel.out() < storage@.len(),
        bindable(old(rec)@, storage@, Usage::Storage),
        4 * params@.len() <= usize::MAX,
    ensures
        final(rec).wf(),
        wrote(
            old(rec)@,
            final(rec)@,
            storage@[kernel.out()],
            made(
                kernel,
                groups,
                others(old(rec)@, kernel, storage@).push(Term::Words(params@)),
                old(rec)@.holds(storage@[kernel.out()]),
            ),
        ),
{
    let ghost a = rec@;
    let shape: [usize; 1] = [params.len()];
    proof {
        lemma_numel_1(params@.len() as usize);
        assert(shape@ =~= seq![params@.len() as usize]);
    }
    let p = rec.from_u32(&shape, params);
    let ghost b = rec@;
    let ghost out = storage@[kernel.out()];
    let mut all = storage;
    all.push(p.buffer);
    proof {
        assert forall|i: int| 0 <= i < all@.len() implies b.live.contains(#[trigger] all@[i])
            && b.buffers[all@[i] as int].usage == Usage::Storage by {
            if i < storage@.len() {
                assert(a.live.contains(storage@[i]));
            }
        }
        assert forall|i: int| 0 <= i < storage@.len() implies b.holds(#[trigger] storage@[i])
            == a.holds(storage@[i]) by {
            assert(a.live.contains(storage@[i]));
        }
        assert(inputs(b.log, kernel, all@, seq![]) =~= others(a, kernel, storage@).push(
            Term::Words(params@),
        ));
        assert(a.live.contains(out));
    }
    dispatch(rec, kernel, all, groups);
    let ghost c = rec@;
    proof {
        assert(all@[kernel.out()] == out);
        assert(p.ok(c));
    }
    rec.recycle(p);
    proof {
        assert(rec@.live =~= a.live);
        assert(rec@.holds(out) == c.holds(out));
    }
}

/// Runs a kernel over `storage` and a uniform buffer of sizes, bound after them.
fn run_uniform(
    rec: &mut Recorder,
    kernel: Kernel,
    storage: Vec<usize>,
    dims: &[u32],
    groups: Groups,
)
    requires
        old(rec).wf(),
        kernel.out() < storage@.len(),
        bindable(old(rec)@, storage@, Usage::Storage),
        dims@.len() == 4,
    ensures
        final(rec).wf(),
        wrote(
            old(rec)@,
            final(rec)@,
            storage@[kernel.out()],
            made(
                kernel,
                groups,
                others(old(rec)@, kernel, storage@).push(Term::Words(dims@)),
                old(rec)@.holds(storage@[kernel.out()]),
            ),
        ),
{
    let ghost a = rec@;
    let u = rec.uniform(dims);
    let ghost b = rec@;
    let ghost out = storage@[kernel.out()];
    let uniform: Vec<usize> = vec![u];
    proof {
        assert forall|i: int| 0 <= i < storage@.len() implies b.live.contains(
            #[trigger] storage@[i],
        )
            && b.buffers[storage@[i] as int].usage == Usage::Storage && b.holds(storage@[i])
            == a.holds(storage@[i]) by {
            assert(a.live.contains(storage@[i]));
        }
        assert(inputs(b.log, kernel, storage@, uniform@) =~= others(a, kernel, storage@).push(
            Term::Words(dims@),
        ));
        assert(a.live.contains(out));
    }
    dispatch_with_uniform(rec, kernel, storage, uniform, groups);
    let ghost c = rec@;
    rec.free(u);
    proof {
        assert(rec@.live =~= a.live);
        assert(rec@.holds(out) == c.holds(out));
    }
}

/// What [`swiglu`] leaves in its output.
pub open spec fn swiglu_term(gate: Term, up: Term, n: usize, over: Term) -> Term {
    made(
        Kernel::Swiglu,
        line(group_count(n as u32, 64)),
        seq![gate, up, Term::Words(seq![n as u32])],
        over,
    )
}

/// SwiGLU combine: `out[i] = silu(gate[i]) * up[i]`, where `silu(x) = x * sigmoid(x)`.
pub fn swiglu(rec: &mut Recorder, gate: &Tensor, up: &Tensor, out: &Tensor, n: usize)
    requires
        old(rec).wf(),
        gate.ok(old(rec)@),
        up.ok(old(rec)@),
        out.ok(old(rec)@),
    ensures
        final(rec).wf(),
        wrote(
            old(rec)@,
            final(rec)@,
            out.buffer,
            swiglu_term(
                gate.in_dev(old(rec)@),
                up.in_dev(old(rec)@),
                n,
                out.in_dev(old(rec)@),
            ),
        ),
        narrow(n as int) ==> swished(
            out.in_dev(final(rec)@),
            out.in_dev(old(rec)@),
            gate.in_dev(old(rec)@),
            up.in_dev(old(rec)@),
            n as int,
        ),
{
    let storage: Vec<usize> = vec![gate.buffer, up.buffer, out.buffer];
    let params: [u32; 1] = [n as u32];
    proof {
        if narrow(n as int) {
            lemma_swiglu(gate.in_dev(rec@), up.in_dev(rec@), n, out.in_dev(rec@));
        }
        assert(others(rec@, Kernel::Swiglu, storage@).push(Term::Words(params@)) =~= seq![
            gate.in_dev(rec@),
            up.in_dev(rec@),
            Term::Words(seq![n as u32]),
        ]) by {
            assert(params@ =~= seq![n as u32]);
        }
    }
    let g = groups_for(n as u32, 64);
    run(rec, Kernel::Swiglu, storage, &params, Groups { x: g, y: 1, z: 1 });
}

/// What [`geglu`] leaves in its output.
pub open spec fn geglu_term(gate: Term, up: Term, n: usize, over: Term) -> Term {
    made(
        Kernel::Geglu,
        line(group_count(n as u32, 64)),
        seq![gate, up, Term::Words(seq![n as u32])],
        over,
    )
}

/// GeGLU combine: `out[i] = gelu(gate[i]) * up[i]`, with the hyperbolic-tangent form of `gelu`.
pub fn geglu(rec: &mut Recorder, gate: &Tensor, up: &Tensor, out: &Tensor, n: usize)
    requires
        old(rec).wf(),
        gate.ok(old(rec)@),
        up.ok(old(rec)@),
        out.ok(old(rec)@),
    ensures
        final(rec).wf(),
        wrote(
            old(rec)@,
            final(rec)@,
            out.buffer,
            geglu_term(gate.in_dev(old(rec)@), up.in_dev(old(rec)@), n, out.in_dev(old(rec)@)),
        ),
        narrow(n as int) ==> belled(
            out.in_dev(final(rec)@),
            out.in_dev(old(rec)@),
            gate.in_dev(old(rec)@),
            up.in_dev(old(rec)@),
            n as int,
        ),
{
    let storage: Vec<usize> = vec![gate.buffer, up.buffer, out.buffer];
    let params: [u32; 1] = [n as u32];
    proof {
        if narrow(n as int) {
            lemma_geglu(gate.in_dev(rec@), up.in_dev(rec@), n, out.in_dev(rec@));
        }
        assert(params@ =~= seq![n as u32]);
        assert(others(rec@, Kernel::Geglu, storage@).push(Term::Words(params@)) =~= seq![
            gate.in_dev(rec@), up.in_dev(rec@),
            Term::Words(seq![n as u32]),
        ]);
    }
    let g = groups_for(n as u32, 64);
    run(rec, Kernel::Geglu, storage, &params, Groups { x: g, y: 1, z: 1 });
}

/// What [`mul_scalar`] leaves in its output.
pub open spec fn mul_scalar_term(x: Term, n: usize, factor: u32, over: Term) -> Term {
    made(
        Kernel::MulScalar,
        line(group_count(n as u32, 64)),
        seq![x, Term::Words(seq![n as u32, factor])],
        over,
    )
}

/// Element-wise product with one number, given by its single-precision code:
/// `out[i] = x[i] * factor`.
pub fn mul_scalar(rec: &mut Recorder, x: &Tensor, out: &Tensor, n: usize, factor: u32)
    requires
        old(rec).wf(),
        x.ok(old(rec)@),
        out.ok(old(rec)@),
    ensures
        final(rec).wf(),
        wrote(
            old(rec)@,
            final(rec)@,
            out.buffer,
            mul_scalar_term(x.in_dev(old(rec)@), n, factor, out.in_dev(old(rec)@)),
        ),
        narrow(n as int) ==> scaled_by(
            out.in_dev(final(rec)@),
            out.in_dev(old(rec)@),
            x.in_dev(old(rec)@),
            n as int,
            factor,
        ),
{
    let storage: Vec<usize> = vec![x.buffer, out.buffer];
    let params: [u32; 2] = [n as u32, factor];
    proof {
        if narrow(n as int) {
            lemma_mul_scalar(x.in_dev(rec@), n, factor, out.in_dev(rec@));
        }
        assert(params@ =~= seq![n as u32, factor]);
        assert(others(rec@, Kernel::MulScalar, storage@).push(Term::Words(params@)) =~= seq![
            x.in_dev(rec@),
            Term::Words(seq![n as u32, factor]),
        ]);
    }
    let g = groups_for(n as u32, 64);
    run(rec, Kernel::MulScalar, storage, &params, Groups { x: g, y: 1, z: 1 });
}

/// What [`embedding_f16`] leaves in its output.
pub open spec fn embedding_f16_term(
    ids: Term,
    table: Term,
    n: usize,
    dim: usize,
    over: Term,
) -> Term {
    made(
        Kernel::EmbeddingF16,
        line(group_count((n * dim) as u32, 64)),
        seq![ids, table, Term::Words(seq![n as u32, dim as u32])],
        over,
    )
}

/// Gathers `n` rows of width `dim` from a table of packed halves into `out` (`[n, dim]`).
pub fn embedding_f16(
    rec: &mut Recorder,
    ids: &Tensor,
    table: &Tensor,
    out: &Tensor,
    n: usize,
    dim: usize,
)
    requires
        old(rec).wf(),
        ids.ok(old(rec)@),
        table.ok(old(rec)@),
        out.ok(old(rec)@),
        n * dim <= usize::MAX,
    ensures
        final(rec).wf(),
        wrote(
            old(rec)@,
            final(rec)@,
            out.buffer,
            embedding_f16_term(
                ids.in_dev(old(rec)@),
                table.in_dev(old(rec)@),
                n,
                dim,
                out.in_dev(old(rec)@),
            ),
        ),
        narrow(n as int) && narrow(dim as int) && narrow(n * dim) ==> gathered(
            out.in_dev(final(rec)@),
            out.in_dev(old(rec)@),
            ids.in_dev(old(rec)@),
            table.in_dev(old(rec)@),
            n as int,
            dim as int,
        ),
{
    let storage: Vec<usize> = vec![ids.buffer, table.buffer, out.buffer];
    let params: [u32; 2] = [n as u32, dim as u32];
    proof {
        if narrow(n as int) && narrow(dim as int) && narrow(n * dim) {
            lemma_embedding(ids.in_dev(rec@), table.in_dev(rec@), n, dim, out.in_dev(rec@));
        }
        assert(params@ =~= seq![n as u32, dim as u32]);
        assert(others(rec@, Kernel::EmbeddingF16, storage@).push(Term::Words(params@)) =~= seq![
            ids.in_dev(rec@), table.in_dev(rec@),
            Term::Words(seq![n as u32, dim as u32]),
        ]);
    }
    let g = groups_for((n * dim) as u32, 64);
    run(rec, Kernel::EmbeddingF16, storage, &params, Groups { x: g, y: 1, z: 1 });
}

/// What [`kv_write`] leaves in its output.
pub open spec fn kv_write_term(
    src: Term,
    hkv: usize,
    count: usize,
    hd: usize,
    max_seq: usize,
    dst_start: usize,
    over: Term,
) -> Term {
    made(
        Kernel::KvWrite,
        line(group_count((hkv * count * hd) as u32, 64)),
        seq![
            src,
            Term::Words(
                seq![hkv as u32, count as u32, hd as u32, max_seq as u32, dst_start as u32],
            ),
        ],
        over,
    )
}

/// Writes `src` (`[count, hkv, hd]`) into `cache` (`[max_seq, hkv, hd]`) from sequence position
/// `dst_start` on.
pub fn kv_write(
    rec: &mut Recorder,
    cache: &Tensor,
    src: &Tensor,
    hkv: usize,
    count: usize,
    hd: usize,
    max_seq: usize,
    dst_start: usize,
)
    requires
        old(rec).wf(),
        cache.ok(old(rec)@),
        src.ok(old(rec)@),
        hkv * count <= usize::MAX,
        hkv * count * hd <= usize::MAX,
    ensures
        final(rec).wf(),
        wrote(
            old(rec)@,
            final(rec)@,
            cache.buffer,
            kv_write_term(
                src.in_dev(old(rec)@),
                hkv,
                count,
                hd,
                max_seq,
                dst_start,
                cache.in_dev(old(rec)@),
            ),
        ),
        narrow(hkv as int) && narrow(count as int) && narrow(hd as int) && narrow(dst_start as int)
            && narrow(hkv * count * hd) ==> stored(
            cache.in_dev(final(rec)@),
            cache.in_dev(old(rec)@),
            src.in_dev(old(rec)@),
            hkv as int,
            count as int,
            hd as int,
            dst_start as int,
        ),
{
    let storage: Vec<usize> = vec![cache.buffer, src.buffer];
    let params: [u32; 5] = [hkv as u32, count as u32, hd as u32, max_seq as u32, dst_start as u32];
    proof {
        if narrow(hkv as int) && narrow(count as int) && narrow(hd as int) && narrow(dst_start as int)
            && narrow(hkv * count * hd) {
            lemma_kv_write(
                src.in_dev(rec@),
                hkv,
                count,
                hd,
                max_seq,
                dst_start,
                cache.in_dev(rec@),
            );
        }
        assert(params@ =~= seq![
            hkv as u32,
            count as u32,
            hd as u32,
            max_seq as u32,
            dst_start as u32,
        ]);
        assert(others(rec@, Kernel::KvWrite, storage@).push(Term::Words(params@)) =~= seq![
            src.in_dev(rec@),
            Term::Words(
                seq![hkv as u32, count as u32, hd as u32, max_seq as u32, dst_start as u32],
            ),
        ]);
    }
    let g = groups_for((hkv * count * hd) as u32, 64);
    run(rec, Kernel::KvWrite, storage, &params, Groups { x: g, y: 1, z: 1 });
}

/// The side of the square tiles of the matrix kernels.
pub const TILE: u32 = 16;

/// What [`linear_f16w`] leaves in its output.
pub open spec fn linear_f16w_term(
    a: Term,
    w: Term,
    m: usize,
    in_f: usize,
    out_f: usize,
    over: Term,
) -> Term {
    made(
        Kernel::LinearF16w,
        Groups { x: group_count(out_f as u32, TILE), y: group_count(m as u32, TILE), z: 1 },
        seq![a, w, Term::Words(seq![m as u32, in_f as u32, out_f as u32, 0u32])],
        over,
    )
}

/// Linear layer with the Hugging Face weight layout: weight `w` is packed halves of logical
/// `[out, in]`, computing `c[m, out] = a[m, in] * w[out, in]^T`.
pub fn linear_f16w(
    rec: &mut Recorder,
    a: &Tensor,
    w: &Tensor,
    c: &Tensor,
    m: usize,
    in_f: usize,
    out_f: usize,
)
    requires
        old(rec).wf(),
        a.ok(old(rec)@),
        w.ok(old(rec)@),
        c.ok(old(rec)@),
    ensures
        final(rec).wf(),
        wrote(
            old(rec)@,
            final(rec)@,
            c.buffer,
            linear_f16w_term(
                a.in_dev(old(rec)@),
                w.in_dev(old(rec)@),
                m,
                in_f,
                out_f,
                c.in_dev(old(rec)@),
            ),
        ),
        narrow(m as int) && narrow(in_f as int) && narrow(out_f as int) ==> projected(
            c.in_dev(final(rec)@),
            a.in_dev(old(rec)@),
            w.in_dev(old(rec)@),
            m as int,
            in_f as int,
            out_f as int,
        ),
{
    let storage: Vec<usize> = vec![a.buffer, w.buffer, c.buffer];
    let params: [u32; 4] = [m as u32, in_f as u32, out_f as u32, 0u32];
    proof {
        if narrow(m as int) && narrow(in_f as int) && narrow(out_f as int) {
            lemma_linear(a.in_dev(rec@), w.in_dev(rec@), m, in_f, out_f, c.in_dev(rec@));
        }
        assert(params@ =~= seq![m as u32, in_f as u32, out_f as u32, 0u32]);
        assert(others(rec@, Kernel::LinearF16w, storage@).push(Term::Words(params@)) =~= seq![
            a.in_dev(rec@), w.in_dev(rec@),
            Term::Words(seq![m as u32, in_f as u32, out_f as u32, 0u32]),
        ]);
    }
    let gx = groups_for(out_f as u32, TILE);
    let gy = groups_for(m as u32, TILE);
    run_uniform(rec, Kernel::LinearF16w, storage, &params, Groups { x: gx, y: gy, z: 1 });
}

/// What [`matmul`] leaves in its output.
pub open spec fn matmul_term(a: Term, b: Term, m: usize, k: usize, n: usize, over: Term) -> Term {
    made(
        Kernel::MatmulF32,
        Groups { x: group_count(n as u32, TILE), y: group_count(m as u32, TILE), z: 1 },
        seq![a, b, Term::Words(seq![m as u32, k as u32, n as u32, 0u32])],
        over,
    )
}

/// Matrix product: `c[m, n] = a[m, k] * b[k, n]` (all row-major).
pub fn matmul(rec: &mut Recorder, a: &Tensor, b: &Tensor, c: &Tensor, m: usize, k: usize, n: usize)
    requires
        old(rec).wf(),
        a.ok(old(rec)@),
        b.ok(old(rec)@),
        c.ok(old(rec)@),
    ensures
        final(rec).wf(),
        wrote(
            old(rec)@,
            final(rec)@,
            c.buffer,
            matmul_term(a.in_dev(old(rec)@), b.in_dev(old(rec)@), m, k, n, c.in_dev(old(rec)@)),
        ),
        narrow(m as int) && narrow(k as int) && narrow(n as int) ==> multiplied(
            c.in_dev(final(rec)@),
            a.in_dev(old(rec)@),
            b.in_dev(old(rec)@),
            m as int,
            k as int,
            n as int,
        ),
{
    let storage: Vec<usize> = vec![a.buffer, b.buffer, c.buffer];
    let params: [u32; 4] = [m as u32, k as u32, n as u32, 0u32];
    proof {
        if narrow(m as int) && narrow(k as int) && narrow(n as int) {
            lemma_matmul(a.in_dev(rec@), b.in_dev(rec@), m, k, n, c.in_dev(rec@));
        }
        assert(params@ =~= seq![m as u32, k as u32, n as u32, 0u32]);
        assert(others(rec@, Kernel::MatmulF32, storage@).push(Term::Words(params@)) =~= seq![
            a.in_dev(rec@), b.in_dev(rec@),
            Term::Words(seq![m as u32, k as u32, n as u32, 0u32]),
        ]);
    }
    let gx = groups_for(n as u32, TILE);
    let gy = groups_for(m as u32, TILE);
    run_uniform(rec, Kernel::MatmulF32, storage, &params, Groups { x: gx, y: gy, z: 1 });
}

/// What [`matmul_f16w`] leaves in its output.
pub open spec fn matmul_f16w_term(
    a: Term,
    b: Term,
    m: usize,
    k: usize,
    n: usize,
    over: Term,
) -> Term {
    made(
        Kernel::MatmulF16w,
        Groups { x: group_count(n as u32, TILE), y: group_count(m as u32, TILE), z: 1 },
        seq![a, b, Term::Words(seq![m as u32, k as u32, n as u32, 0u32])],
        over,
    )
}

/// Matrix product with a weight `b` of packed halves (logical `[k, n]`):
/// `c[m, n] = a[m, k] * b[k, n]`.
pub fn matmul_f16w(
    rec: &mut Recorder,
    a: &Tensor,
    b: &Tensor,
    c: &Tensor,
    m: usize,
    k: usize,
    n: usize,
)
    requires
        old(rec).wf(),
        a.ok(old(rec)@),
        b.ok(old(rec)@),
        c.ok(old(rec)@),
    ensures
        final(rec).wf(),
        wrote(
            old(rec)@,
            final(rec)@,
            c.buffer,
            matmul_f16w_term(
                a.in_dev(old(rec)@),
                b.in_dev(old(rec)@),
                m,
                k,
                n,
                c.in_dev(old(rec)@),
            ),
        ),
        narrow(m as int) && narrow(k as int) && narrow(n as int) ==> multiplied_halves(
            c.in_dev(final(rec)@),
            a.in_dev(old(rec)@),
            b.in_dev(old(rec)@),
            m as int,
            k as int,
            n as int,
        ),
{
    let storage: Vec<usize> = vec![a.buffer, b.buffer, c.buffer];
    let params: [u32; 4] = [m as u32, k as u32, n as u32, 0u32];
    proof {
        if narrow(m as int) && narrow(k as int) && narrow(n as int) {
            lemma_matmul_f16w(a.in_dev(rec@), b.in_dev(rec@), m, k, n, c.in_dev(rec@));
        }
        assert(params@ =~= seq![m as u32, k as u32, n as u32, 0u32]);
        assert(others(rec@, Kernel::MatmulF16w, storage@).push(Term::Words(params@)) =~= seq![
            a.in_dev(rec@), b.in_dev(rec@),
            Term::Words(seq![m as u32, k as u32, n as u32, 0u32]),
        ]);
    }
    let gx = groups_for(n as u32, TILE);
    let gy = groups_for(m as u32, TILE);
    run_uniform(rec, Kernel::MatmulF16w, storage, &params, Groups { x: gx, y: gy, z: 1 });
}

/// What [`attn_prefill`] leaves in its output.
pub open spec fn attn_prefill_term(
    q: Term,
    k: Term,
    v: Term,
    h: usize,
    hkv: usize,
    s: usize,
    hd: usize,
    scale: u32,
    over: Term,
) -> Term {
    made(
        Kernel::AttnPrefill { head_dim: hd },
        line(group_count((h * s) as u32, 64)),
        seq![q, k, v, Term::Words(seq![h as u32, hkv as u32, s as u32, scale])],
        over,
    )
}

/// Causal grouped-query attention over full sequences: q `[s, h, hd]`, k and v `[s, hkv, hd]`,
/// out `[s, h, hd]`. `scale` is a single-precision code.
pub fn attn_prefill(
    rec: &mut Recorder,
    q: &Tensor,
    k: &Tensor,
    v: &Tensor,
    o: &Tensor,
    h: usize,
    hkv: usize,
    s: usize,
    hd: usize,
    scale: u32,
)
    requires
        old(rec).wf(),
        q.ok(old(rec)@),
        k.ok(old(rec)@),
        v.ok(old(rec)@),
        o.ok(old(rec)@),
        h * s <= usize::MAX,
    ensures
        final(rec).wf(),
        wrote(
            old(rec)@,
            final(rec)@,
            o.buffer,
            attn_prefill_term(
                q.in_dev(old(rec)@),
                k.in_dev(old(rec)@),
                v.in_dev(old(rec)@),
                h,
                hkv,
                s,
                hd,
                scale,
                o.in_dev(old(rec)@),
            ),
        ),
        narrow(h as int) && narrow(hkv as int) && narrow(s as int) && narrow(h * s) ==> attends(
            o.in_dev(final(rec)@),
            q.in_dev(old(rec)@),
            k.in_dev(old(rec)@),
            v.in_dev(old(rec)@),
            h as int,
            hkv as int,
            s as int,
            hd as int,
            scale,
        ),
{
    let storage: Vec<usize> = vec![q.buffer, k.buffer, v.buffer, o.buffer];
    let params: [u32; 4] = [h as u32, hkv as u32, s as u32, scale];
    proof {
        if narrow(h as int) && narrow(hkv as int) && narrow(s as int) && narrow(h * s) {
            lemma_attn_prefill(
                q.in_dev(rec@),
                k.in_dev(rec@),
                v.in_dev(rec@),
                h,
                hkv,
                s,
                hd,
                scale,
                o.in_dev(rec@),
            );
        }
        assert(params@ =~= seq![h as u32, hkv as u32, s as u32, scale]);
        assert(others(
            rec@,
            Kernel::AttnPrefill { head_dim: hd },
            storage@,
        ).push(Term::Words(params@)) =~= seq![
            q.in_dev(rec@), k.in_dev(rec@), v.in_dev(rec@),
            Term::Words(seq![h as u32, hkv as u32, s as u32, scale]),
        ]);
    }
    let g = groups_for((h * s) as u32, 64);
    run(rec, Kernel::AttnPrefill { head_dim: hd }, storage, &params, Groups { x: g, y: 1, z: 1 });
}

/// What [`attn_decode`] leaves in its output.
pub open spec fn attn_decode_term(
    q: Term,
    kcache: Term,
    vcache: Term,
    h: usize,
    hkv: usize,
    pos: usize,
    hd: usize,
    max_seq: usize,
    scale: u32,
    over: Term,
) -> Term {
    made(
        Kernel::AttnDecode { head_dim: hd },
        line(group_count(h as u32, 64)),
        seq![
            q,
            kcache,
            vcache,
            Term::Words(seq![h as u32, hkv as u32, pos as u32, max_seq as u32, scale]),
        ],
        over,
    )
}

/// Single decode step: q `[h, hd]` attends positions `0..=pos` of a cache `[max_seq, hkv, hd]`; out
/// `[h, hd]`. `scale` is a single-precision code.
pub fn attn_decode(
    rec: &mut Recorder,
    q: &Tensor,
    kcache: &Tensor,
    vcache: &Tensor,
    o: &Tensor,
    h: usize,
    hkv: usize,
    pos: usize,
    hd: usize,
    max_seq: usize,
    scale: u32,
)
    requires
        old(rec).wf(),
        q.ok(old(rec)@),
        kcache.ok(old(rec)@),
        vcache.ok(old(rec)@),
        o.ok(old(rec)@),
    ensures
        final(rec).wf(),
        wrote(
            old(rec)@,
            final(rec)@,
            o.buffer,
            attn_decode_term(
                q.in_dev(old(rec)@),
                kcache.in_dev(old(rec)@),
                vcache.in_dev(old(rec)@),
                h,
                hkv,
                pos,
                hd,
                max_seq,
                scale,
                o.in_dev(old(rec)@),
            ),
        ),
        narrow(h as int) && narrow(hkv as int) && narrow(pos as int) ==> attends_cache(
            o.in_dev(final(rec)@),
            q.in_dev(old(rec)@),
            kcache.in_dev(old(rec)@),
            vcache.in_dev(old(rec)@),
            h as int,
            hkv as int,
            pos as int,
            hd as int,
            scale,
        ),
{
    let storage: Vec<usize> = vec![q.buffer, kcache.buffer, vcache.buffer, o.buffer];
    let params: [u32; 5] = [h as u32, hkv as u32, pos as u32, max_seq as u32, scale];
    proof {
        if narrow(h as int) && narrow(hkv as int) && narrow(pos as int) {
            lemma_attn_decode(
                q.in_dev(rec@),
                kcache.in_dev(rec@),
                vcache.in_dev(rec@),
                h,
                hkv,
                pos,
                hd,
                max_seq,
                scale,
                o.in_dev(rec@),
            );
        }
        assert(params@ =~= seq![h as u32, hkv as u32, pos as u32, max_seq as u32, scale]);
        assert(others(
            rec@,
            Kernel::AttnDecode { head_dim: hd },
            storage@,
        ).push(Term::Words(params@)) =~= seq![
            q.in_dev(rec@), kcache.in_dev(rec@), vcache.in_dev(rec@),
            Term::Words(seq![h as u32, hkv as u32, pos as u32, max_seq as u32, scale]),
        ]);
    }
    let g = groups_for(h as u32, 64);
    run(rec, Kernel::AttnDecode { head_dim: hd }, storage, &params, Groups { x: g, y: 1, z: 1 });
}

/// What [`softmax`] leaves in its output.
pub open spec fn softmax_term(x: Term, rows: usize, cols: usize, over: Term) -> Term {
    made(
        Kernel::Softmax,
        line(rows as u32),
        seq![x, Term::Words(seq![rows as u32, cols as u32])],
        over,
    )
}

/// Row softmax of `x` (`[rows, cols]`) into `out`.
pub fn softmax(rec: &mut Recorder, x: &Tensor, out: &Tensor, rows: usize, cols: usize)
    requires
        old(rec).wf(),
        x.ok(old(rec)@),
        out.ok(old(rec)@),
    ensures
        final(rec).wf(),
        wrote(
            old(rec)@,
            final(rec)@,
            out.buffer,
            softmax_term(x.in_dev(old(rec)@), rows, cols, out.in_dev(old(rec)@)),
        ),
        narrow(rows as int) && narrow(cols as int) ==> shared_out(
            out.in_dev(final(rec)@),
            x.in_dev(old(rec)@),
            rows as int,
            cols as int,
        ),
{
    let storage: Vec<usize> = vec![x.buffer, out.buffer];
    let params: [u32; 2] = [rows as u32, cols as u32];
    proof {
        if narrow(rows as int) && narrow(cols as int) {
            lemma_softmax(x.in_dev(rec@), rows, cols, out.in_dev(rec@));
        }
        assert(params@ =~= seq![rows as u32, cols as u32]);
        assert(others(rec@, Kernel::Softmax, storage@).push(Term::Words(params@)) =~= seq![
            x.in_dev(rec@),
            Term::Words(seq![rows as u32, cols as u32]),
        ]);
    }
    run(rec, Kernel::Softmax, storage, &params, Groups { x: rows as u32, y: 1, z: 1 });
}

/// What [`rmsnorm`] leaves in its output.
pub open spec fn rmsnorm_term(
    x: Term,
    weight: Term,
    rows: usize,
    dim: usize,
    eps: u32,
    over: Term,
) -> Term {
    made(
        Kernel::RmsNorm,
        line(rows as u32),
        seq![x, weight, Term::Words(seq![rows as u32, dim as u32, eps])],
        over,
    )
}

/// RMSNorm over rows of `x` (`[rows, dim]`), scaled by `weight` (`[dim]`), into `out`. `eps` is a
/// single-precision code.
pub fn rmsnorm(
    rec: &mut Recorder,
    x: &Tensor,
    weight: &Tensor,
    out: &Tensor,
    rows: usize,
    dim: usize,
    eps: u32,
)
    requires
        old(rec).wf(),
        x.ok(old(rec)@),
        weight.ok(old(rec)@),
        out.ok(old(rec)@),
    ensures
        final(rec).wf(),
        wrote(
            old(rec)@,
            final(rec)@,
            out.buffer,
            rmsnorm_term(
                x.in_dev(old(rec)@),
                weight.in_dev(old(rec)@),
                rows,
                dim,
                eps,
                out.in_dev(old(rec)@),
            ),
        ),
        narrow(rows as int) && narrow(dim as int) ==> normalized(
            out.in_dev(final(rec)@),
            x.in_dev(old(rec)@),
            weight.in_dev(old(rec)@),
            rows as int,
            dim as int,
            eps,
        ),
{
    let storage: Vec<usize> = vec![x.buffer, weight.buffer, out.buffer];
    let params: [u32; 3] = [rows as u32, dim as u32, eps];
    proof {
        if narrow(rows as int) && narrow(dim as int) {
            lemma_rmsnorm(x.in_dev(rec@), weight.in_dev(rec@), rows, dim, eps, out.in_dev(rec@));
        }
        assert(params@ =~= seq![rows as u32, dim as u32, eps]);
        assert(others(rec@, Kernel::RmsNorm, storage@).push(Term::Words(params@)) =~= seq![
            x.in_dev(rec@), weight.in_dev(rec@),
            Term::Words(seq![rows as u32, dim as u32, eps]),
        ]);
    }
    run(rec, Kernel::RmsNorm, storage, &params, Groups { x: rows as u32, y: 1, z: 1 });
}

/// What [`rope`] leaves in its output.
pub open spec fn rope_term(
    x: Term,
    cos: Term,
    sin: Term,
    seq: usize,
    n_heads: usize,
    head_dim: usize,
    base_pos: usize,
    over: Term,
) -> Term {
    made(
        Kernel::Rope,
        line(group_count((seq * n_heads * (head_dim / 2)) as u32, 64)),
        seq![
            x,
            cos,
            sin,
            Term::Words(seq![seq as u32, n_heads as u32, head_dim as u32, base_pos as u32]),
        ],
        over,
    )
}

/// Applies RoPE to `x` (`[seq, n_heads, head_dim]`) using `cos`/`sin` (`[max_seq, head_dim / 2]`),
/// into `out`. `base_pos` is the absolute position of the first row.
pub fn rope(
    rec: &mut Recorder,
    x: &Tensor,
    cos: &Tensor,
    sin: &Tensor,
    out: &Tensor,
    seq: usize,
    n_heads: usize,
    head_dim: usize,
    base_pos: usize,
)
    requires
        old(rec).wf(),
        x.ok(old(rec)@),
        cos.ok(old(rec)@),
        sin.ok(old(rec)@),
        out.ok(old(rec)@),
        seq * n_heads <= usize::MAX,
        seq * n_heads * (head_dim / 2) <= usize::MAX,
    ensures
        final(rec).wf(),
        wrote(
            old(rec)@,
            final(rec)@,
            out.buffer,
            rope_term(
                x.in_dev(old(rec)@),
                cos.in_dev(old(rec)@),
                sin.in_dev(old(rec)@),
                seq,
                n_heads,
                head_dim,
                base_pos,
                out.in_dev(old(rec)@),
            ),
        ),
        narrow(seq as int) && narrow(n_heads as int) && narrow(head_dim as int)
            && narrow(base_pos as int) && narrow(seq * n_heads * (head_dim / 2)) ==> turned_by(
            out.in_dev(final(rec)@),
            x.in_dev(old(rec)@),
            cos.in_dev(old(rec)@),
            sin.in_dev(old(rec)@),
            seq as int,
            n_heads as int,
            head_dim as int,
            base_pos as int,
        ),
{
    let storage: Vec<usize> = vec![x.buffer, cos.buffer, sin.buffer, out.buffer];
    let params: [u32; 4] = [seq as u32, n_heads as u32, head_dim as u32, base_pos as u32];
    proof {
        if narrow(seq as int) && narrow(n_heads as int) && narrow(head_dim as int)
            && narrow(base_pos as int) && narrow(seq * n_heads * (head_dim / 2)) {
            lemma_rope(
                x.in_dev(rec@),
                cos.in_dev(rec@),
                sin.in_dev(rec@),
                seq,
                n_heads,
                head_dim,
                base_pos,
                out.in_dev(rec@),
            );
        }
        assert(params@ =~= seq![seq as u32, n_heads as u32, head_dim as u32, base_pos as u32]);
        assert(others(rec@, Kernel::Rope, storage@).push(Term::Words(params@)) =~= seq![
            x.in_dev(rec@), cos.in_dev(rec@), sin.in_dev(rec@),
            Term::Words(seq![seq as u32, n_heads as u32, head_dim as u32, base_pos as u32]),
        ]);
    }
    let g = groups_for((seq * n_heads * (head_dim / 2)) as u32, 64);
    run(rec, Kernel::Rope, storage, &params, Groups { x: g, y: 1, z: 1 });
}

/// What [`argmax`] leaves in its output.
pub open spec fn argmax_term(logits: Term, vocab: usize, over: Term) -> Term {
    made(
        Kernel::Argmax,
        line(1),
        seq![logits, Term::Words(seq![vocab as u32])],
        over,
    )
}

/// Writes the index of the largest of `vocab` logits into the only element of `out_idx`.
pub fn argmax(rec: &mut Recorder, logits: &Tensor, out_idx: &Tensor, vocab: usize)
    requires
        old(rec).wf(),
        logits.ok(old(rec)@),
        out_idx.ok(old(rec)@),
    ensures
        final(rec).wf(),
        wrote(
            old(rec)@,
            final(rec)@,
            out_idx.buffer,
            argmax_term(logits.in_dev(old(rec)@), vocab, out_idx.in_dev(old(rec)@)),
        ),
        narrow(vocab as int) ==> largest_of(
            out_idx.in_dev(final(rec)@),
            logits.in_dev(old(rec)@),
            vocab as int,
        ),
{
    let storage: Vec<usize> = vec![logits.buffer, out_idx.buffer];
    let params: [u32; 1] = [vocab as u32];
    proof {
        if narrow(vocab as int) {
            lemma_argmax(logits.in_dev(rec@), vocab, out_idx.in_dev(rec@));
        }
        assert(params@ =~= seq![vocab as u32]);
        assert(others(rec@, Kernel::Argmax, storage@).push(Term::Words(params@)) =~= seq![
            logits.in_dev(rec@),
            Term::Words(seq![vocab as u32]),
        ]);
    }
    run(rec, Kernel::Argmax, storage, &params, Groups { x: 1, y: 1, z: 1 });
}

} // verus!
