//! Grouped-query attention over a key/value cache.

use vstd::prelude::*;

use crate::error::DType;
use crate::gpu::device::{same_but, DeviceView};
use crate::gpu::memory::Term;
use crate::gpu::recorder::Recorder;
use crate::gpu::tensor::Tensor;
use crate::kernels::{
    attn_decode, attn_decode_term, attn_prefill, attn_prefill_term, kv_write, kv_write_term,
};
use crate::nn::kv_cache::KvCache;
use crate::nn::layers::{fits, grid, in_range, Linear, LinearView, RmsNorm, RmsNormView};
use crate::nn::rope::{fits_heads, heads_in_range, Rope, RopeView};

verus! {

/// Grouped-query attention with RoPE and *optional* per-head norms. Qwen3 sets `q_norm`/`k_norm`;
/// Llama/Mistral leave them out. Gemma 4 additionally sets `v_norm` (a weightless RMSNorm) and a
/// `scale` of one; Qwen3/Mistral use `1/√head_dim`. `scale` is a single-precision code.
#[derive(Debug)]
pub struct Attention {
    pub q_proj: Linear,
    pub k_proj: Linear,
    pub v_proj: Linear,
    pub o_proj: Linear,
    pub q_norm: Option<RmsNorm>,
    pub k_norm: Option<RmsNorm>,
    pub v_norm: Option<RmsNorm>,
    pub n_heads: usize,
    pub n_kv_heads: usize,
    pub head_dim: usize,
    pub hidden: usize,
    pub scale: u32,
}

/// What an [`Attention`] is: its layers with what their weights hold, and its sizes.
pub struct AttentionView {
    pub q_proj: LinearView,
    pub k_proj: LinearView,
    pub v_proj: LinearView,
    pub o_proj: LinearView,
    pub q_norm: Option<RmsNormView>,
    pub k_norm: Option<RmsNormView>,
    pub v_norm: Option<RmsNormView>,
    pub n_heads: usize,
    pub n_kv_heads: usize,
    pub head_dim: usize,
    pub scale: u32,
}

/// What attention leaves: its output and the two caches of its layer.
#[verifier::ext_equal]
pub struct Attended {
    pub out: Term,
    pub k: Term,
    pub v: Term,
}

/// `x` after a norm, or as it is where there is none.
pub open spec fn normed(norm: Option<RmsNormView>, x: Term, rows: usize) -> Term {
    match norm {
        Some(n) => n.of(x, rows),
        None => x,
    }
}

impl AttentionView {
    /// The rotated queries of `rows` rows, the first at position `base_pos`.
    pub open spec fn queries(self, x: Term, rope: RopeView, rows: usize, base_pos: usize) -> Term {
        rope.of(
            normed(self.q_norm, self.q_proj.of(x, rows), (rows * self.n_heads) as usize),
            rows,
            self.n_heads,
            base_pos,
        )
    }

    /// The rotated keys.
    pub open spec fn keys(self, x: Term, rope: RopeView, rows: usize, base_pos: usize) -> Term {
        rope.of(
            normed(self.k_norm, self.k_proj.of(x, rows), (rows * self.n_kv_heads) as usize),
            rows,
            self.n_kv_heads,
            base_pos,
        )
    }

    /// The values.
    pub open spec fn values(self, x: Term, rows: usize) -> Term {
        normed(self.v_norm, self.v_proj.of(x, rows), (rows * self.n_kv_heads) as usize)
    }

    /// What a cache that held `cache` holds after `rows` rows were written from `base_pos` on.
    pub open spec fn cached(
        self,
        rows_written: Term,
        rows: usize,
        max_seq: usize,
        base_pos: usize,
        cache: Term,
    ) -> Term {
        kv_write_term(
            rows_written,
            self.n_kv_heads,
            rows,
            self.head_dim,
            max_seq,
            base_pos,
            cache,
        )
    }

    /// What a whole prompt of `rows` rows leaves, with caches that held `k` and `v`.
    pub open spec fn prefilled(
        self,
        x: Term,
        rope: RopeView,
        rows: usize,
        max_seq: usize,
        k: Term,
        v: Term,
    ) -> Attended {
        Attended {
            out: self.o_proj.of(
                attn_prefill_term(
                    self.queries(x, rope, rows, 0),
                    self.keys(x, rope, rows, 0),
                    self.values(x, rows),
                    self.n_heads,
                    self.n_kv_heads,
                    rows,
                    self.head_dim,
                    self.scale,
                    Term::Unset,
                ),
                rows,
            ),
            k: self.cached(self.keys(x, rope, rows, 0), rows, max_seq, 0, k),
            v: self.cached(self.values(x, rows), rows, max_seq, 0, v),
        }
    }

    /// What one row at position `pos` leaves, with caches that held `k` and `v`.
    pub open spec fn decoded(
        self,
        x: Term,
        rope: RopeView,
        pos: usize,
        max_seq: usize,
        k: Term,
        v: Term,
    ) -> Attended {
        let k2 = self.cached(self.keys(x, rope, 1, pos), 1, max_seq, pos, k);
        let v2 = self.cached(self.values(x, 1), 1, max_seq, pos, v);
        Attended {
            out: self.o_proj.of(
                attn_decode_term(
                    self.queries(x, rope, 1, pos),
                    k2,
                    v2,
                    self.n_heads,
                    self.n_kv_heads,
                    pos,
                    self.head_dim,
                    max_seq,
                    self.scale,
                    Term::Unset,
                ),
                1,
            ),
            k: k2,
            v: v2,
        }
    }

    /// What `rows` rows leave, the first at position `base_pos`: a fresh prompt of several rows
    /// goes through in one batch, anything else is a single step.
    pub open spec fn attended(
        self,
        x: Term,
        rope: RopeView,
        rows: usize,
        base_pos: usize,
        max_seq: usize,
        k: Term,
        v: Term,
    ) -> Attended {
        if base_pos == 0 && rows > 1 {
            self.prefilled(x, rope, rows, max_seq, k, v)
        } else {
            self.decoded(x, rope, base_pos, max_seq, k, v)
        }
    }
}

/// How many rows attention takes at once: all of a fresh prompt, else one.
pub open spec fn batch(rows: usize, base_pos: usize) -> usize {
    if base_pos == 0 && rows > 1 {
        rows
    } else {
        1
    }
}

/// How many rows go through in one batch.
pub(crate) fn batch_of(rows: usize, base_pos: usize) -> (r: usize)
    ensures
        r == batch(rows, base_pos),
{
    if base_pos == 0 && rows > 1 {
        rows
    } else {
        1
    }
}

/// A norm, where there is one, with what its weights hold on a device.
pub open spec fn norm_on(norm: Option<RmsNorm>, d: DeviceView) -> Option<RmsNormView> {
    match norm {
        Some(n) => Some(n.on(d)),
        None => None,
    }
}

/// Whether a norm, where there is one, is in use on a device.
pub open spec fn norm_ok(norm: Option<RmsNorm>, d: DeviceView) -> bool {
    match norm {
        Some(n) => n.ok(d),
        None => true,
    }
}

/// Whether a buffer holds the weights of a norm.
pub open spec fn norm_uses(norm: Option<RmsNorm>, id: usize) -> bool {
    match norm {
        Some(n) => n.w.buffer == id,
        None => false,
    }
}

/// Whether the machine can address what a norm, where there is one, computes for `rows` rows.
pub open spec fn norm_fits(norm: Option<RmsNorm>, rows: int) -> bool {
    match norm {
        Some(n) => fits(rows, n.dim as int),
        None => true,
    }
}

/// Tests whether the machine can address what a norm computes, where there is one.
fn norm_in_range(norm: &Option<RmsNorm>, rows: usize) -> (r: bool)
    ensures
        r == norm_fits(*norm, rows as int),
{
    match norm {
        Some(n) => in_range(rows, n.dim),
        None => true,
    }
}

/// Applies a norm where there is one, in place of the tensor that it is given.
fn normalize(norm: &Option<RmsNorm>, rec: &mut Recorder, t: Tensor, rows: usize) -> (r: Tensor)
    requires
        old(rec).wf(),
        norm_ok(*norm, old(rec)@),
        t.ok(old(rec)@),
        norm_fits(*norm, rows as int),
    ensures
        final(rec).wf(),
        r.ok(final(rec)@),
        r.in_dev(final(rec)@) == normed(
            norm_on(*norm, old(rec)@),
            t.in_dev(old(rec)@),
            rows,
        ),
        !old(rec)@.live.remove(t.buffer).contains(r.buffer),
        final(rec)@.live == old(rec)@.live.remove(t.buffer).insert(r.buffer),
        same_but(old(rec)@, final(rec)@, set![t.buffer]),
{
    match norm {
        Some(n) => {
            let r = n.forward(rec, &t, rows);
            rec.recycle(t);
            assert(rec@.live =~= old(rec)@.live.remove(t.buffer).insert(r.buffer));
            r
        },
        None => {
            assert(rec@.live =~= rec@.live.remove(t.buffer).insert(t.buffer));
            t
        },
    }
}

impl Attention {
    /// Whether the weights are in use on a device.
    pub open spec fn ok(self, d: DeviceView) -> bool {
        &&& self.q_proj.ok(d)
        &&& self.k_proj.ok(d)
        &&& self.v_proj.ok(d)
        &&& self.o_proj.ok(d)
        &&& norm_ok(self.q_norm, d)
        &&& norm_ok(self.k_norm, d)
        &&& norm_ok(self.v_norm, d)
    }

    /// Whether a buffer holds weights of the attention.
    pub open spec fn uses(self, id: usize) -> bool {
        ||| self.q_proj.w.buffer == id
        ||| self.k_proj.w.buffer == id
        ||| self.v_proj.w.buffer == id
        ||| self.o_proj.w.buffer == id
        ||| norm_uses(self.q_norm, id)
        ||| norm_uses(self.k_norm, id)
        ||| norm_uses(self.v_norm, id)
    }

    /// The attention with what its weights hold on a device.
    pub open spec fn on(self, d: DeviceView) -> AttentionView {
        AttentionView {
            q_proj: self.q_proj.on(d),
            k_proj: self.k_proj.on(d),
            v_proj: self.v_proj.on(d),
            o_proj: self.o_proj.on(d),
            q_norm: norm_on(self.q_norm, d),
            k_norm: norm_on(self.k_norm, d),
            v_norm: norm_on(self.v_norm, d),
            n_heads: self.n_heads,
            n_kv_heads: self.n_kv_heads,
            head_dim: self.head_dim,
            scale: self.scale,
        }
    }

    /// Whether the machine can address what the attention computes for `rows` rows with heads of
    /// `rope_dim` rotated numbers.
    pub open spec fn fits(self, rows: int, rope_dim: int) -> bool {
        &&& fits(rows, self.q_proj.out_f as int)
        &&& fits(rows, self.k_proj.out_f as int)
        &&& fits(rows, self.v_proj.out_f as int)
        &&& fits(rows, self.o_proj.out_f as int)
        &&& norm_fits(self.q_norm, rows * self.n_heads)
        &&& norm_fits(self.k_norm, rows * self.n_kv_heads)
        &&& norm_fits(self.v_norm, rows * self.n_kv_heads)
        &&& fits_heads(rows, self.n_heads as int, rope_dim)
        &&& fits_heads(rows, self.n_kv_heads as int, rope_dim)
        &&& self.n_heads * self.head_dim <= usize::MAX
        &&& fits(rows, self.n_heads * self.head_dim)
        &&& self.n_kv_heads * rows * self.head_dim <= usize::MAX
    }

    /// Tests whether the machine can address what is computed for `rows` rows.
    pub fn in_range(&self, rows: usize, rope_dim: usize) -> (r: bool)
        ensures
            r == self.fits(rows as int, rope_dim as int),
    {
        if !in_range(rows, self.q_proj.out_f) || !in_range(rows, self.k_proj.out_f) || !in_range(
            rows,
            self.v_proj.out_f,
        ) || !in_range(rows, self.o_proj.out_f) {
            return false;
        }
        if !heads_in_range(rows, self.n_heads, rope_dim) || !heads_in_range(
            rows,
            self.n_kv_heads,
            rope_dim,
        ) {
            return false;
        }
        if !norm_in_range(&self.q_norm, rows * self.n_heads) || !norm_in_range(
            &self.k_norm,
            rows * self.n_kv_heads,
        ) || !norm_in_range(&self.v_norm, rows * self.n_kv_heads) {
            return false;
        }
        proof {
            assert(self.n_kv_heads * rows == rows * self.n_kv_heads) by (nonlinear_arith);
        }
        match self.n_heads.checked_mul(self.head_dim) {
            Some(q) => in_range(rows, q) && (rows * self.n_kv_heads).checked_mul(
                self.head_dim,
            ).is_some(),
            None => false,
        }
    }

    /// What attention over a layer's caches leaves behind: the output in a new tensor, the caches
    /// written, everything else as it was and all that was borrowed given back.
    pub open spec fn leaves(
        self,
        a: DeviceView,
        b: DeviceView,
        r: Tensor,
        rows: usize,
        kc: Tensor,
        vc: Tensor,
        t: Attended,
    ) -> bool {
        &&& !a.live.contains(r.buffer)
        &&& b.live == a.live.insert(r.buffer)
        &&& same_but(a, b, set![kc.buffer, vc.buffer])
        &&& r.ok(b)
        &&& r.shape@ == seq![rows, self.o_proj.out_f]
        &&& r.dtype == DType::F32
        &&& r.in_dev(b) == t.out
        &&& kc.in_dev(b) == t.k
        &&& vc.in_dev(b) == t.v
    }

    /// Prefill over a whole prompt. `x` is `[seq, hidden]`; returns `[seq, hidden]`.
    /// Writes the layer's keys/values into `kv` starting at sequence position 0.
    #[verifier::rlimit(40)]
    pub fn prefill(
        &self,
        rec: &mut Recorder,
        x: &Tensor,
        rope: &Rope,
        kv: &KvCache,
        layer: usize,
        seq: usize,
    ) -> (r: Tensor)
        requires
            old(rec).wf(),
            self.ok(old(rec)@),
            x.ok(old(rec)@),
            rope.ok(old(rec)@),
            layer < kv.k@.len(),
            layer < kv.v@.len(),
            kv.k@[layer as int].ok(old(rec)@),
            kv.v@[layer as int].ok(old(rec)@),
            kv.k@[layer as int].buffer != kv.v@[layer as int].buffer,
            !self.uses(kv.k@[layer as int].buffer),
            !self.uses(kv.v@[layer as int].buffer),
            self.fits(seq as int, rope.head_dim as int),
        ensures
            final(rec).wf(),
            self.leaves(
                old(rec)@,
                final(rec)@,
                r,
                seq,
                kv.k@[layer as int],
                kv.v@[layer as int],
                self.on(old(rec)@).prefilled(
                    x.in_dev(old(rec)@),
                    rope.on(old(rec)@),
                    seq,
                    kv.max_seq,
                    kv.k@[layer as int].in_dev(old(rec)@),
                    kv.v@[layer as int].in_dev(old(rec)@),
                ),
            ),
    {
        let ghost a = rec@;
        let ghost me = self.on(a);
        let ghost xt = x.in_dev(a);
        let ghost ro = rope.on(a);
        let kc = &kv.k[layer];
        let vc = &kv.v[layer];
        proof {
            self.lemma_bounds(seq as int, rope.head_dim as int);
        }

        let q = self.q_proj.forward(rec, x, seq);
        let k = self.k_proj.forward(rec, x, seq);
        let v = self.v_proj.forward(rec, x, seq);
        let qn = normalize(&self.q_norm, rec, q, seq * self.n_heads);
        let kn = normalize(&self.k_norm, rec, k, seq * self.n_kv_heads);
        let v = normalize(&self.v_norm, rec, v, seq * self.n_kv_heads);
        let ghost b = rec@;
        proof {
            assert(v.in_dev(b) == me.values(xt, seq));
            assert(b.live =~= a.live.insert(qn.buffer).insert(kn.buffer).insert(v.buffer));
            assert(same_but(a, b, Set::empty()));
        }

        let qr = rope.apply(rec, &qn, seq, self.n_heads, 0);
        let kr = rope.apply(rec, &kn, seq, self.n_kv_heads, 0);
        rec.recycle(kn);
        rec.recycle(qn);
        let ghost d = rec@;
        proof {
            assert(qr.in_dev(d) == me.queries(xt, ro, seq, 0));
            assert(kr.in_dev(d) == me.keys(xt, ro, seq, 0));
            assert(d.live =~= a.live.insert(qr.buffer).insert(kr.buffer).insert(v.buffer));
            assert(same_but(a, d, Set::empty()));
        }

        kv_write(rec, kc, &kr, self.n_kv_heads, seq, self.head_dim, kv.max_seq, 0);
        kv_write(rec, vc, &v, self.n_kv_heads, seq, self.head_dim, kv.max_seq, 0);
        let ghost e = rec@;
        proof {
            assert(e.live =~= d.live);
            assert(same_but(d, e, set![kc.buffer, vc.buffer]));
        }

        let o = grid(rec, seq, self.n_heads * self.head_dim);
        attn_prefill(
            rec,
            &qr,
            &kr,
            &v,
            &o,
            self.n_heads,
            self.n_kv_heads,
            seq,
            self.head_dim,
            self.scale,
        );
        let r = self.o_proj.forward(rec, &o, seq);
        rec.recycle(o);
        rec.recycle(kr);
        rec.recycle(qr);
        rec.recycle(v);
        assert(rec@.live =~= a.live.insert(r.buffer));
        r
    }

    /// Single decode step at sequence position `pos`. `x` is `[1, hidden]`; returns `[1, hidden]`.
    #[verifier::rlimit(40)]
    pub fn decode(
        &self,
        rec: &mut Recorder,
        x: &Tensor,
        rope: &Rope,
        kv: &KvCache,
        layer: usize,
        pos: usize,
    ) -> (r: Tensor)
        requires
            old(rec).wf(),
            self.ok(old(rec)@),
            x.ok(old(rec)@),
            rope.ok(old(rec)@),
            layer < kv.k@.len(),
            layer < kv.v@.len(),
            kv.k@[layer as int].ok(old(rec)@),
            kv.v@[layer as int].ok(old(rec)@),
            kv.k@[layer as int].buffer != kv.v@[layer as int].buffer,
            !self.uses(kv.k@[layer as int].buffer),
            !self.uses(kv.v@[layer as int].buffer),
            self.fits(1, rope.head_dim as int),
        ensures
            final(rec).wf(),
            self.leaves(
                old(rec)@,
                final(rec)@,
                r,
                1,
                kv.k@[layer as int],
                kv.v@[layer as int],
                self.on(old(rec)@).decoded(
                    x.in_dev(old(rec)@),
                    rope.on(old(rec)@),
                    pos,
                    kv.max_seq,
                    kv.k@[layer as int].in_dev(old(rec)@),
                    kv.v@[layer as int].in_dev(old(rec)@),
                ),
            ),
    {
        let ghost a = rec@;
        let ghost me = self.on(a);
        let ghost xt = x.in_dev(a);
        let ghost ro = rope.on(a);
        let kc = &kv.k[layer];
        let vc = &kv.v[layer];
        proof {
            self.lemma_bounds(1, rope.head_dim as int);
        }

        let q = self.q_proj.forward(rec, x, 1);
        let k = self.k_proj.forward(rec, x, 1);
        let v = self.v_proj.forward(rec, x, 1);
        let qn = normalize(&self.q_norm, rec, q, self.n_heads);
        let kn = normalize(&self.k_norm, rec, k, self.n_kv_heads);
        let v = normalize(&self.v_norm, rec, v, self.n_kv_heads);
        let ghost b = rec@;
        proof {
            assert(v.in_dev(b) == me.values(xt, 1));
            assert(b.live =~= a.live.insert(qn.buffer).insert(kn.buffer).insert(v.buffer));
            assert(same_but(a, b, Set::empty()));
        }

        let qr = rope.apply(rec, &qn, 1, self.n_heads, pos);
        let kr = rope.apply(rec, &kn, 1, self.n_kv_heads, pos);
        rec.recycle(kn);
        rec.recycle(qn);
        let ghost d = rec@;
        proof {
            assert(qr.in_dev(d) == me.queries(xt, ro, 1, pos));
            assert(kr.in_dev(d) == me.keys(xt, ro, 1, pos));
            assert(d.live =~= a.live.insert(qr.buffer).insert(kr.buffer).insert(v.buffer));
            assert(same_but(a, d, Set::empty()));
        }

        kv_write(rec, kc, &kr, self.n_kv_heads, 1, self.head_dim, kv.max_seq, pos);
        kv_write(rec, vc, &v, self.n_kv_heads, 1, self.head_dim, kv.max_seq, pos);
        let ghost e = rec@;
        proof {
            assert(e.live =~= d.live);
            assert(same_but(d, e, set![kc.buffer, vc.buffer]));
        }

        let o = grid(rec, 1, self.n_heads * self.head_dim);
        attn_decode(
            rec,
            &qr,
            kc,
            vc,
            &o,
            self.n_heads,
            self.n_kv_heads,
            pos,
            self.head_dim,
            kv.max_seq,
            self.scale,
        );
        let r = self.o_proj.forward(rec, &o, 1);
        rec.recycle(o);
        rec.recycle(kr);
        rec.recycle(qr);
        rec.recycle(v);
        assert(rec@.live =~= a.live.insert(r.buffer));
        r
    }

    /// Runs attention for `rows` rows whose first row is at absolute position `base_pos`: the
    /// batched prefill path for a fresh multi-row prompt and the single-step decode path otherwise
    /// (a one-token prompt at position 0 included).
    pub fn forward(
        &self,
        rec: &mut Recorder,
        x: &Tensor,
        rope: &Rope,
        kv: &KvCache,
        layer: usize,
        rows: usize,
        base_pos: usize,
    ) -> (r: Tensor)
        requires
            old(rec).wf(),
            self.ok(old(rec)@),
            x.ok(old(rec)@),
            rope.ok(old(rec)@),
            layer < kv.k@.len(),
            layer < kv.v@.len(),
            kv.k@[layer as int].ok(old(rec)@),
            kv.v@[layer as int].ok(old(rec)@),
            kv.k@[layer as int].buffer != kv.v@[layer as int].buffer,
            !self.uses(kv.k@[layer as int].buffer),
            !self.uses(kv.v@[layer as int].buffer),
            self.fits(batch(rows, base_pos) as int, rope.head_dim as int),
        ensures
            final(rec).wf(),
            self.leaves(
                old(rec)@,
                final(rec)@,
                r,
                batch(rows, base_pos),
                kv.k@[layer as int],
                kv.v@[layer as int],
                self.on(old(rec)@).attended(
                    x.in_dev(old(rec)@),
                    rope.on(old(rec)@),
                    rows,
                    base_pos,
                    kv.max_seq,
                    kv.k@[layer as int].in_dev(old(rec)@),
                    kv.v@[layer as int].in_dev(old(rec)@),
                ),
            ),
    {
        if base_pos == 0 && rows > 1 {
            self.prefill(rec, x, rope, kv, layer, rows)
        } else {
            self.decode(rec, x, rope, kv, layer, base_pos)
        }
    }

    /// The sizes that are computed for `rows` rows are in range.
    proof fn lemma_bounds(self, rows: int, rope_dim: int)
        requires
            rows >= 0,
            self.fits(rows, rope_dim),
        ensures
            rows * self.n_heads <= usize::MAX,
            self.n_heads * rows <= usize::MAX,
            rows * self.n_kv_heads <= usize::MAX,
            self.n_kv_heads * rows <= usize::MAX,
            self.n_heads * self.head_dim <= usize::MAX,
    {
        let h = self.n_heads as int;
        let hkv = self.n_kv_heads as int;
        assert(rows * h == h * rows) by (nonlinear_arith);
        assert(rows * hkv == hkv * rows) by (nonlinear_arith);
    }
}

} // verus!
