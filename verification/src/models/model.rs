//! The architecture-agnostic decoder driver.
//!
//! A [`LanguageModel`] owns the embedding table, a stack of [`Block`]s, the final norm, and the LM
//! head, and records the shared prefill/decode skeleton exactly once. Per-architecture modules
//! build the block list and set the few hooks that differ (embedding scale, final-logit softcap).
//! Adding an architecture means writing a `Block` and a loader; the driver does not change.

use vstd::prelude::*;

use crate::bytes::{le32, read32};
use crate::config::Config;
use crate::error::DType;
use crate::coverage::row_of;
use crate::gpu::device::{same_but, Device, DeviceView};
use crate::gpu::kernel::{copied, copy_range};
use crate::gpu::elements::Number;
use crate::gpu::memory::Term;
use crate::gpu::recorder::Recorder;
use crate::gpu::tensor::{lemma_numel_1, lemma_numel_2, Tensor};
use crate::kernels::{
    argmax, argmax_term, embedding_f16, embedding_f16_term, linear_f16w, linear_f16w_term,
    mul_scalar, mul_scalar_term,
};
use crate::nn::attention::Attended;
use crate::nn::kv_cache::KvCache;
use crate::nn::layers::{fits, grid, in_range, produced, RmsNorm};
use crate::nn::rope::{fits_heads, heads_in_range};
use crate::nn::rows::rows_of;

verus! {

/// Whether a buffer is in use in `a` and in `b` and holds the same in both.
pub open spec fn kept(a: DeviceView, b: DeviceView, id: usize) -> bool {
    &&& a.live.contains(id)
    &&& b.live.contains(id)
    &&& id < a.buffers.len()
    &&& id < b.buffers.len()
    &&& b.buffers[id as int] == a.buffers[id as int]
    &&& b.holds(id) == a.holds(id)
}

/// Whether `b` is `a` with one more tensor in use, of this shape, and the two caches written, such
/// that they hold `t`.
pub open spec fn stepped(
    a: DeviceView,
    b: DeviceView,
    r: Tensor,
    shape: Seq<usize>,
    kc: Tensor,
    vc: Tensor,
    t: Attended,
) -> bool {
    &&& !a.live.contains(r.buffer)
    &&& b.live == a.live.insert(r.buffer)
    &&& same_but(a, b, set![kc.buffer, vc.buffer])
    &&& r.ok(b)
    &&& r.shape@ == shape
    &&& r.dtype == DType::F32
    &&& r.in_dev(b) == t.out
    &&& kc.in_dev(b) == t.k
    &&& vc.in_dev(b) == t.v
}

/// One decoder block: the attention and feed-forward sub-blocks with their norms and residuals.
/// Implementations own everything they need (their RoPE table, norms, activation), so the driver
/// can treat every architecture uniformly.
pub trait Block: Sized {
    /// Whether the block's weights are in use on a device.
    spec fn ok(&self, d: DeviceView) -> bool;

    /// Whether a buffer holds weights of the block.
    spec fn uses(&self, id: usize) -> bool;

    /// The width of the hidden states.
    spec fn width(&self) -> usize;

    /// Whether the machine can address what the block computes for `rows` rows.
    spec fn fits(&self, rows: usize, base_pos: usize) -> bool;

    /// The new hidden states for `x` and what the layer's caches, which held `k` and `v`, then
    /// hold, with the weights as they are on a device.
    spec fn term(
        &self,
        d: DeviceView,
        x: Term,
        rows: usize,
        base_pos: usize,
        max_seq: usize,
        k: Term,
        v: Term,
    ) -> Attended;

    /// A block computes the same as long as its weights are kept.
    proof fn lemma_kept(&self, a: DeviceView, b: DeviceView)
        requires
            self.ok(a),
            forall|id: usize| #[trigger] self.uses(id) ==> kept(a, b, id),
        ensures
            self.ok(b),
            forall|x: Term, rows: usize, base_pos: usize, max_seq: usize, k: Term, v: Term| #[trigger]
                self.term(b, x, rows, base_pos, max_seq, k, v) == self.term(
                    a,
                    x,
                    rows,
                    base_pos,
                    max_seq,
                    k,
                    v,
                ),
    ;

    /// Whether the sizes of the block fit together, and 32 bits hold what `rows` rows from `base` on
    /// ask for.
    spec fn regular(&self, d: DeviceView, rows: int, base: int) -> bool;

    /// What the block makes of the last row of a sequence.
    spec fn row(&self, d: DeviceView, xs: Seq<Seq<Number>>) -> Seq<Number>;

    /// Whether the caches of the layer hold what the block needs of a sequence of rows.
    spec fn remembers(&self, d: DeviceView, k: Term, v: Term, xs: Seq<Seq<Number>>) -> bool;

    /// Of an empty sequence the block needs nothing.
    proof fn lemma_remembers_nothing(&self, d: DeviceView, k: Term, v: Term)
        ensures
            self.remembers(d, k, v, seq![]),
    ;

    /// Each row of a step is what the block makes of the sequence up to that row, and the caches
    /// then hold what the block needs of all rows.
    proof fn lemma_rows(
        &self,
        d: DeviceView,
        x: Term,
        rows: usize,
        base: usize,
        max_seq: usize,
        k: Term,
        v: Term,
        xs: Seq<Seq<Number>>,
    )
        requires
            self.regular(d, rows as int, base as int),
            base == 0 || rows == 1,
            xs.len() == base,
            self.remembers(d, k, v, xs),
        ensures
            ({
                let t = self.term(d, x, rows, base, max_seq, k, v);
                let w = self.width() as int;
                &&& self.remembers(d, t.k, t.v, xs + rows_of(x, rows as int, w))
                &&& forall|i: int|
                    0 <= i < rows ==> #[trigger] row_of(t.out, i, w) == self.row(
                        d,
                        xs + rows_of(x, i + 1, w),
                    )
            }),
    ;

    /// A fresh prompt of several rows does not read what the caches held.
    proof fn lemma_fresh(
        &self,
        d: DeviceView,
        x: Term,
        rows: usize,
        max_seq: usize,
        k: Term,
        v: Term,
        k2: Term,
        v2: Term,
    )
        requires
            rows > 1,
        ensures
            self.term(d, x, rows, 0, max_seq, k, v).out == self.term(
                d,
                x,
                rows,
                0,
                max_seq,
                k2,
                v2,
            ).out,
    ;

    /// Tests whether the machine can address what the block computes for `rows` rows.
    fn in_range(&self, rows: usize, base_pos: usize) -> (r: bool)
        ensures
            r == self.fits(rows, base_pos),
    ;

    /// Updates the hidden states `x` (`[rows, hidden]`) for this layer, returning the new states.
    /// `base_pos` is the absolute position of the first row (0 for prefill, the position for
    /// decode).
    fn forward(
        &self,
        rec: &mut Recorder,
        x: &Tensor,
        kv: &KvCache,
        layer: usize,
        rows: usize,
        base_pos: usize,
    ) -> (r: Tensor)
        requires
            old(rec).wf(),
            self.ok(old(rec)@),
            x.ok(old(rec)@),
            layer < kv.k@.len(),
            layer < kv.v@.len(),
            kv.k@[layer as int].ok(old(rec)@),
            kv.v@[layer as int].ok(old(rec)@),
            kv.k@[layer as int].buffer != kv.v@[layer as int].buffer,
            !self.uses(kv.k@[layer as int].buffer),
            !self.uses(kv.v@[layer as int].buffer),
            x.buffer != kv.k@[layer as int].buffer,
            x.buffer != kv.v@[layer as int].buffer,
            self.fits(rows, base_pos),
        ensures
            final(rec).wf(),
            stepped(
                old(rec)@,
                final(rec)@,
                r,
                seq![rows, self.width()],
                kv.k@[layer as int],
                kv.v@[layer as int],
                self.term(
                    old(rec)@,
                    x.in_dev(old(rec)@),
                    rows,
                    base_pos,
                    kv.max_seq,
                    kv.k@[layer as int].in_dev(old(rec)@),
                    kv.v@[layer as int].in_dev(old(rec)@),
                ),
            ),
    ;
}

/// Hidden states on their way through the layers, with the caches of all layers.
#[verifier::ext_equal]
pub struct Flow {
    pub x: Term,
    pub k: Seq<Term>,
    pub v: Seq<Term>,
}

/// The flow after the first `n` blocks.
pub open spec fn through<B: Block>(
    blocks: Seq<B>,
    n: int,
    d: DeviceView,
    flow: Flow,
    rows: usize,
    base_pos: usize,
    max_seq: usize,
) -> Flow
    decreases n,
{
    if n <= 0 {
        flow
    } else {
        let f = through(blocks, n - 1, d, flow, rows, base_pos, max_seq);
        let t = blocks[n - 1].term(d, f.x, rows, base_pos, max_seq, f.k[n - 1], f.v[n - 1]);
        Flow { x: t.out, k: f.k.update(n - 1, t.k), v: f.v.update(n - 1, t.v) }
    }
}

/// What tensors hold on a device.
pub open spec fn terms(s: Seq<Tensor>, d: DeviceView) -> Seq<Term> {
    s.map_values(|t: Tensor| t.in_dev(d))
}

/// Whether the caches of a model's layers are in use and none of its weights.
pub open spec fn caches_apart<B: Block>(blocks: Seq<B>, kv: KvCache, d: DeviceView) -> bool {
    &&& kv.ok(d)
    &&& kv.k@.len() == blocks.len()
    &&& forall|l: int, id: usize|
        0 <= l < blocks.len() && #[trigger] blocks[l].uses(id) ==> !kv.uses(id)
}

/// Whether the weights of all blocks are in use on a device and blocks compute in range.
pub open spec fn blocks_ok<B: Block>(
    blocks: Seq<B>,
    d: DeviceView,
    rows: usize,
    base_pos: usize,
) -> bool {
    &&& forall|l: int| 0 <= l < blocks.len() ==> (#[trigger] blocks[l]).ok(d)
    &&& forall|l: int| 0 <= l < blocks.len() ==> (#[trigger] blocks[l]).fits(rows, base_pos)
    &&& forall|l: int, id: usize|
        0 <= l < blocks.len() && #[trigger] blocks[l].uses(id) ==> d.live.contains(id)
}

/// A cache's number among all.
proof fn lemma_cache_ids(kv: KvCache, d: DeviceView, l: int)
    requires
        kv.ok(d),
        0 <= l < kv.k@.len(),
    ensures
        kv.uses(kv.k@[l].buffer),
        kv.uses(kv.v@[l].buffer),
        kv.k@[l].ok(d),
        kv.v@[l].ok(d),
        kv.k@[l].buffer != kv.v@[l].buffer,
        forall|m: int|
            0 <= m < kv.k@.len() && m != l ==> (#[trigger] kv.k@[m]).buffer != kv.k@[l].buffer
                && kv.k@[m].buffer != kv.v@[l].buffer,
        forall|m: int|
            0 <= m < kv.k@.len() && m != l ==> (#[trigger] kv.v@[m]).buffer != kv.v@[l].buffer
                && kv.v@[m].buffer != kv.k@[l].buffer,
{
    let all = kv.k@ + kv.v@;
    let n = kv.k@.len() as int;
    assert(all[l] == kv.k@[l] && all[n + l] == kv.v@[l]);
    assert(all[l].buffer != all[n + l].buffer);
    assert forall|m: int| 0 <= m < n && m != l implies (#[trigger] kv.k@[m]).buffer
        != kv.k@[l].buffer && kv.k@[m].buffer != kv.v@[l].buffer by {
        assert(all[m] == kv.k@[m]);
        assert(all[m].buffer != all[n + l].buffer);
        if m < l {
            assert(all[m].buffer != all[l].buffer);
        } else {
            assert(all[l].buffer != all[m].buffer);
        }
    }
    assert forall|m: int| 0 <= m < n && m != l implies (#[trigger] kv.v@[m]).buffer
        != kv.v@[l].buffer && kv.v@[m].buffer != kv.k@[l].buffer by {
        assert(all[n + m] == kv.v@[m]);
        assert(all[l].buffer != all[n + m].buffer);
        if m < l {
            assert(all[n + m].buffer != all[n + l].buffer);
        } else {
            assert(all[n + l].buffer != all[n + m].buffer);
        }
    }
}

/// Whether `b` is `a` with `y` in use in place of `x`, the caches changed and nothing else.
pub open spec fn passed(a: DeviceView, b: DeviceView, x: usize, y: usize, kv: KvCache) -> bool {
    &&& !a.live.remove(x).contains(y)
    &&& b.live == a.live.remove(x).insert(y)
    &&& a.buffers.len() <= b.buffers.len()
    &&& forall|i: int| 0 <= i < a.buffers.len() ==> #[trigger] b.buffers[i] == a.buffers[i]
    &&& forall|id: usize|
        #![trigger b.holds(id)]
        #![trigger a.holds(id)]
        a.live.contains(id) && id != x && !kv.uses(id) ==> b.holds(id) == a.holds(id)
}

/// Runs every block over `x`, which is given back.
pub(crate) fn run_blocks<B: Block>(
    blocks: &Vec<B>,
    rec: &mut Recorder,
    x: Tensor,
    kv: &KvCache,
    rows: usize,
    base_pos: usize,
) -> (r: Tensor)
    requires
        old(rec).wf(),
        blocks_ok(blocks@, old(rec)@, rows, base_pos),
        caches_apart(blocks@, *kv, old(rec)@),
        x.ok(old(rec)@),
        !kv.uses(x.buffer),
        forall|l: int| 0 <= l < blocks@.len() ==> !(#[trigger] blocks@[l]).uses(x.buffer),
    ensures
        final(rec).wf(),
        r.ok(final(rec)@),
        passed(old(rec)@, final(rec)@, x.buffer, r.buffer, *kv),
        ({
            let f = through(
                blocks@,
                blocks@.len() as int,
                old(rec)@,
                Flow {
                    x: x.in_dev(old(rec)@),
                    k: terms(kv.k@, old(rec)@),
                    v: terms(kv.v@, old(rec)@),
                },
                rows,
                base_pos,
                kv.max_seq,
            );
            &&& r.in_dev(final(rec)@) == f.x
            &&& terms(kv.k@, final(rec)@) == f.k
            &&& terms(kv.v@, final(rec)@) == f.v
        }),
{
    let ghost a = rec@;
    let ghost x0 = x.buffer;
    let ghost start = Flow { x: x.in_dev(a), k: terms(kv.k@, a), v: terms(kv.v@, a) };
    let mut x = x;
    let mut l: usize = 0;
    assert(rec@.live =~= a.live.remove(x0).insert(x0));
    while l < blocks.len()
        invariant
            l <= blocks@.len(),
            a == old(rec)@,
            a.wf(),
            rec.wf(),
            blocks_ok(blocks@, a, rows, base_pos),
            caches_apart(blocks@, *kv, a),
            !kv.uses(x0),
            forall|l: int| 0 <= l < blocks@.len() ==> !(#[trigger] blocks@[l]).uses(x0),
            a.live.contains(x0),
            x.ok(rec@),
            kv.ok(rec@),
            passed(a, rec@, x0, x.buffer, *kv),
            ({
                let f = through(blocks@, l as int, a, start, rows, base_pos, kv.max_seq);
                &&& x.in_dev(rec@) == f.x
                &&& terms(kv.k@, rec@) == f.k
                &&& terms(kv.v@, rec@) == f.v
            }),
        decreases blocks.len() - l,
    {
        let ghost b = rec@;
        let ghost f = through(blocks@, l as int, a, start, rows, base_pos, kv.max_seq);
        let block = &blocks[l];
        proof {
            lemma_cache_ids(*kv, a, l as int);
            lemma_cache_ids(*kv, b, l as int);
            assert(block.ok(a) && block.fits(rows, base_pos));
            assert forall|id: usize| #[trigger] block.uses(id) implies kept(a, b, id) by {
                assert(blocks@[l as int].uses(id));
                assert(a.live.contains(id));
                assert(!blocks@[l as int].uses(x0));
                assert(!kv.uses(id));
                assert(b.holds(id) == a.holds(id));
            }
            block.lemma_kept(a, b);
            assert(terms(kv.k@, b)[l as int] == kv.k@[l as int].in_dev(b));
            assert(terms(kv.v@, b)[l as int] == kv.v@[l as int].in_dev(b));
            assert(!a.live.remove(x0).contains(x.buffer));
            assert(a.live.contains(kv.k@[l as int].buffer));
            assert(a.live.contains(kv.v@[l as int].buffer));
        }
        let y = block.forward(rec, &x, kv, l, rows, base_pos);
        let ghost c = rec@;
        let ghost xb = x.buffer;
        let old_x = x;
        x = y;
        rec.recycle(old_x);
        proof {
            let d = rec@;
            assert(d.live =~= a.live.remove(x0).insert(x.buffer));
            let t = block.term(
                a,
                f.x,
                rows,
                base_pos,
                kv.max_seq,
                f.k[l as int],
                f.v[l as int],
            );
            assert(x.in_dev(d) == t.out);
            assert forall|m: int| 0 <= m < kv.k@.len() implies #[trigger] terms(kv.k@, d)[m]
                == f.k.update(l as int, t.k)[m] by {
                lemma_cache_ids(*kv, b, m);
                assert(terms(kv.k@, b)[m] == kv.k@[m].in_dev(b));
                assert(kv.k@[m].in_dev(d) == kv.k@[m].in_dev(c));
                if m != l {
                    assert(kv.k@[m].in_dev(c) == kv.k@[m].in_dev(b));
                }
            }
            assert(terms(kv.k@, d) =~= f.k.update(l as int, t.k));
            assert forall|m: int| 0 <= m < kv.v@.len() implies #[trigger] terms(kv.v@, d)[m]
                == f.v.update(l as int, t.v)[m] by {
                lemma_cache_ids(*kv, b, m);
                assert(terms(kv.v@, b)[m] == kv.v@[m].in_dev(b));
                assert(kv.v@[m].in_dev(d) == kv.v@[m].in_dev(c));
                if m != l {
                    assert(kv.v@[m].in_dev(c) == kv.v@[m].in_dev(b));
                }
            }
            assert(terms(kv.v@, d) =~= f.v.update(l as int, t.v));
            let all = kv.k@ + kv.v@;
            assert forall|i: int| 0 <= i < all.len() implies (#[trigger] all[i]).ok(d) by {
                assert(all[i].ok(b));
                assert(kv.uses(all[i].buffer));
                assert(all[i].ok(a)) by {
                    assert(kv.ok(a));
                }
                assert(a.live.contains(all[i].buffer));
                assert(all[i].buffer != xb);
            }
            assert forall|id: usize|
                #![trigger d.holds(id)]
                #![trigger a.holds(id)]
                a.live.contains(id) && id != x0 && !kv.uses(id) implies d.holds(id) == a.holds(
                id,
            ) by {
                assert(b.holds(id) == a.holds(id));
                assert(c.holds(id) == b.holds(id));
            }
        }
        l = l + 1;
    }
    x
}

/// A loaded decoder-only language model. `embed_scale` and `logit_softcap` are single-precision
/// codes.
pub struct LanguageModel<B> {
    /// Table of packed halves `[vocab, hidden]`, also the tied LM-head weight.
    pub embed_w: Tensor,
    /// Separate LM-head weight when the model is untied (none: use `embed_w`).
    pub lm_head_w: Option<Tensor>,
    pub blocks: Vec<B>,
    pub norm: RmsNorm,
    /// Embedding scale (Gemma multiplies embeddings by `√hidden`).
    pub embed_scale: Option<u32>,
    /// Final-logit softcap `cap * tanh(x / cap)` (Gemma). Monotonic, so it is skipped on the argmax
    /// path.
    pub logit_softcap: Option<u32>,
    /// Per-layer KV head size (uniform for most architectures).
    pub head_dims: Vec<usize>,
    pub n_kv_heads: usize,
    pub cfg: Config,
}

/// Whether `b` is `a` with one more tensor in use and only the caches changed.
pub open spec fn advanced(a: DeviceView, b: DeviceView, r: Tensor, kv: KvCache) -> bool {
    &&& !a.live.contains(r.buffer)
    &&& b.live == a.live.insert(r.buffer)
    &&& r.ok(b)
    &&& a.buffers.len() <= b.buffers.len()
    &&& forall|i: int| 0 <= i < a.buffers.len() ==> #[trigger] b.buffers[i] == a.buffers[i]
    &&& forall|id: usize|
        #![trigger b.holds(id)]
        #![trigger a.holds(id)]
        a.live.contains(id) && !kv.uses(id) ==> b.holds(id) == a.holds(id)
}

/// The embeddings of token ids, scaled where there is a scale.
pub open spec fn embedded(table: Term, scale: Option<u32>, ids: Seq<u32>, hidden: usize) -> Term {
    let rows = ids.len() as usize;
    let e = embedding_f16_term(Term::Words(ids), table, rows, hidden, Term::Unset);
    match scale {
        Some(s) => mul_scalar_term(e, (rows * hidden) as usize, s, Term::Unset),
        None => e,
    }
}

/// The last of `rows` rows of `hidden` numbers.
pub open spec fn last_row(x: Term, rows: int, hidden: int) -> Term {
    copied(x, (rows - 1) * hidden, hidden, Term::Unset, 0)
}

/// Embeds token ids.
pub(crate) fn embed_ids(
    rec: &mut Recorder,
    table: &Tensor,
    scale: Option<u32>,
    ids: &[u32],
    hidden: usize,
) -> (r: Tensor)
    requires
        old(rec).wf(),
        table.ok(old(rec)@),
        4 * ids@.len() <= usize::MAX,
        fits(ids@.len() as int, hidden as int),
    ensures
        final(rec).wf(),
        produced(
            old(rec)@,
            final(rec)@,
            r,
            seq![ids@.len() as usize, hidden],
            embedded(table.in_dev(old(rec)@), scale, ids@, hidden),
        ),
{
    let ghost a = rec@;
    let rows = ids.len();
    let shape: [usize; 1] = [rows];
    proof {
        lemma_numel_1(rows);
        assert(shape@ =~= seq![rows]);
        assert(rows * hidden <= usize::MAX) by (nonlinear_arith)
            requires
                rows * hidden * 4 <= usize::MAX,
                rows * hidden >= 0,
        ;
    }
    let ids_t = rec.from_u32(&shape, ids);
    let emb = grid(rec, rows, hidden);
    embedding_f16(rec, &ids_t, table, &emb, rows, hidden);
    let ghost b = rec@;
    let r = match scale {
        Some(s) => {
            let scaled = grid(rec, rows, hidden);
            mul_scalar(rec, &emb, &scaled, rows * hidden, s);
            rec.recycle(emb);
            scaled
        },
        None => emb,
    };
    rec.recycle(ids_t);
    assert(rec@.live =~= a.live.insert(r.buffer));
    r
}

impl<B: Block> LanguageModel<B> {
    /// Whether the weights are in use on a device and of matching sizes.
    pub open spec fn ok(self, d: DeviceView) -> bool {
        &&& self.embed_w.ok(d)
        &&& match self.lm_head_w {
            Some(t) => t.ok(d),
            None => true,
        }
        &&& self.norm.ok(d)
        &&& self.norm.dim == self.cfg.hidden
        &&& forall|l: int| 0 <= l < self.blocks@.len() ==> (#[trigger] self.blocks@[l]).ok(d)
        &&& forall|l: int, id: usize|
            0 <= l < self.blocks@.len() && #[trigger] self.blocks@[l].uses(id)
                ==> d.live.contains(id)
    }

    /// Whether the caches are in use on a device and are none of the model's weights.
    pub open spec fn apart(self, kv: KvCache, d: DeviceView) -> bool {
        &&& caches_apart(self.blocks@, kv, d)
        &&& !kv.uses(self.embed_w.buffer)
        &&& match self.lm_head_w {
            Some(t) => !kv.uses(t.buffer),
            None => true,
        }
        &&& !kv.uses(self.norm.w.buffer)
    }

    /// Whether the machine can address what a step of `rows` rows computes.
    pub open spec fn fits(self, rows: usize, base_pos: usize) -> bool {
        &&& 4 * rows <= usize::MAX
        &&& fits(rows as int, self.cfg.hidden as int)
        &&& fits(1, self.cfg.hidden as int)
        &&& fits(1, self.cfg.vocab as int)
        &&& forall|l: int|
            0 <= l < self.blocks@.len() ==> (#[trigger] self.blocks@[l]).fits(rows, base_pos)
    }

    /// What the LM head's weights hold.
    pub open spec fn head(self, d: DeviceView) -> Term {
        match self.lm_head_w {
            Some(t) => t.in_dev(d),
            None => self.embed_w.in_dev(d),
        }
    }

    /// The hidden states of `ids` after all blocks, with what the caches then hold.
    pub open spec fn flow(
        self,
        d: DeviceView,
        ids: Seq<u32>,
        base_pos: usize,
        max_seq: usize,
        k: Seq<Term>,
        v: Seq<Term>,
    ) -> Flow {
        through(
            self.blocks@,
            self.blocks@.len() as int,
            d,
            Flow {
                x: embedded(self.embed_w.in_dev(d), self.embed_scale, ids, self.cfg.hidden),
                k,
                v,
            },
            ids.len() as usize,
            base_pos,
            max_seq,
        )
    }

    /// The last row of hidden states after the final norm, copied out of them where `slice` says
    /// so.
    pub open spec fn last(self, d: DeviceView, x: Term, rows: usize, slice: bool) -> Term {
        let xn = self.norm.on(d).of(x, rows);
        if slice {
            last_row(xn, rows as int, self.cfg.hidden as int)
        } else {
            xn
        }
    }

    /// The logits for the last of the positions of `ids`, with what the caches then hold.
    pub open spec fn logits(
        self,
        d: DeviceView,
        ids: Seq<u32>,
        base_pos: usize,
        max_seq: usize,
        k: Seq<Term>,
        v: Seq<Term>,
    ) -> Flow {
        self.sliced_logits(d, ids, base_pos, max_seq, k, v, ids.len() != 1)
    }

    /// The logits for the last of the positions of `ids`, whose row is copied out of the hidden
    /// states where `slice` says so.
    pub open spec fn sliced_logits(
        self,
        d: DeviceView,
        ids: Seq<u32>,
        base_pos: usize,
        max_seq: usize,
        k: Seq<Term>,
        v: Seq<Term>,
        slice: bool,
    ) -> Flow {
        let f = self.flow(d, ids, base_pos, max_seq, k, v);
        Flow {
            x: linear_f16w_term(
                self.last(d, f.x, ids.len() as usize, slice),
                self.head(d),
                1,
                self.cfg.hidden,
                self.cfg.vocab,
                Term::Unset,
            ),
            ..f
        }
    }

    /// Builds a KV cache sized for this model and the given max sequence length.
    pub fn new_kv_cache(&self, dev: &mut Device, max_seq: usize) -> (r: KvCache)
        requires
            old(dev)@.wf(),
            self.cache_fits(max_seq),
        ensures
            final(dev)@.wf(),
            r.allocated(self.head_dims@, max_seq, self.n_kv_heads, old(dev)@, final(dev)@),
    {
        KvCache::new_per_layer(dev, self.head_dims.as_slice(), max_seq, self.n_kv_heads)
    }

    /// Tests whether the machine can address what a step of `rows` rows computes.
    pub fn in_range(&self, rows: usize, base_pos: usize) -> (r: bool)
        ensures
            r == self.fits(rows, base_pos),
    {
        if rows > usize::MAX / 4 || !in_range(rows, self.cfg.hidden) || !in_range(
            1,
            self.cfg.hidden,
        ) || !in_range(1, self.cfg.vocab) {
            return false;
        }
        let mut l: usize = 0;
        while l < self.blocks.len()
            invariant
                l <= self.blocks@.len(),
                forall|i: int| 0 <= i < l ==> (#[trigger] self.blocks@[i]).fits(rows, base_pos),
            decreases self.blocks.len() - l,
        {
            if !self.blocks[l].in_range(rows, base_pos) {
                return false;
            }
            l = l + 1;
        }
        true
    }

    /// Whether the machine can address the caches for `max_seq` positions.
    pub open spec fn cache_fits(self, max_seq: usize) -> bool {
        forall|l: int|
            0 <= l < self.head_dims@.len() ==> fits_heads(
                max_seq as int,
                self.n_kv_heads as int,
                #[trigger] self.head_dims@[l] as int,
            )
    }

    /// Tests whether the machine can address the caches for `max_seq` positions.
    pub fn cache_in_range(&self, max_seq: usize) -> (r: bool)
        ensures
            r == self.cache_fits(max_seq),
    {
        let mut l: usize = 0;
        while l < self.head_dims.len()
            invariant
                l <= self.head_dims@.len(),
                forall|i: int|
                    0 <= i < l ==> fits_heads(
                        max_seq as int,
                        self.n_kv_heads as int,
                        #[trigger] self.head_dims@[i] as int,
                    ),
            decreases self.head_dims.len() - l,
        {
            if !heads_in_range(max_seq, self.n_kv_heads, self.head_dims[l]) {
                return false;
            }
            l = l + 1;
        }
        true
    }

    fn lm_head_weight(&self) -> (r: &Tensor)
        ensures
            match self.lm_head_w {
                Some(t) => *r == t,
                None => *r == self.embed_w,
            },
    {
        match &self.lm_head_w {
            Some(t) => t,
            None => &self.embed_w,
        }
    }

    /// Embeds `ids` and applies the optional embedding scale, returning `[rows, hidden]`.
    fn embed(&self, rec: &mut Recorder, ids: &[u32]) -> (r: Tensor)
        requires
            old(rec).wf(),
            self.embed_w.ok(old(rec)@),
            4 * ids@.len() <= usize::MAX,
            fits(ids@.len() as int, self.cfg.hidden as int),
        ensures
            final(rec).wf(),
            produced(
                old(rec)@,
                final(rec)@,
                r,
                seq![ids@.len() as usize, self.cfg.hidden],
                embedded(
                    self.embed_w.in_dev(old(rec)@),
                    self.embed_scale,
                    ids@,
                    self.cfg.hidden,
                ),
            ),
    {
        embed_ids(rec, &self.embed_w, self.embed_scale, ids, self.cfg.hidden)
    }

    /// Runs every block over already-embedded `x`, applies the final norm, and returns the LAST
    /// row's hidden state as `[1, hidden]` (the only row the LM head needs), or all rows where no
    /// slice is asked for.
    #[verifier::rlimit(30)]
    fn run_blocks_last(
        &self,
        rec: &mut Recorder,
        x: Tensor,
        kv: &KvCache,
        rows: usize,
        base_pos: usize,
        slice: bool,
    ) -> (r: Tensor)
        requires
            old(rec).wf(),
            self.ok(old(rec)@),
            self.apart(*kv, old(rec)@),
            self.fits(rows, base_pos),
            rows > 0,
            x.ok(old(rec)@),
            !kv.uses(x.buffer),
            x.buffer != self.norm.w.buffer,
            forall|l: int|
                0 <= l < self.blocks@.len() ==> !(#[trigger] self.blocks@[l]).uses(x.buffer),
        ensures
            final(rec).wf(),
            r.ok(final(rec)@),
            passed(old(rec)@, final(rec)@, x.buffer, r.buffer, *kv),
            ({
                let f = through(
                    self.blocks@,
                    self.blocks@.len() as int,
                    old(rec)@,
                    Flow {
                        x: x.in_dev(old(rec)@),
                        k: terms(kv.k@, old(rec)@),
                        v: terms(kv.v@, old(rec)@),
                    },
                    rows,
                    base_pos,
                    kv.max_seq,
                );
                &&& r.in_dev(final(rec)@) == self.last(old(rec)@, f.x, rows, slice)
                &&& terms(kv.k@, final(rec)@) == f.k
                &&& terms(kv.v@, final(rec)@) == f.v
            }),
    {
        let ghost a = rec@;
        let ghost x0 = x.buffer;
        let hidden = self.cfg.hidden;
        let x = run_blocks(&self.blocks, rec, x, kv, rows, base_pos);
        let ghost b = rec@;
        proof {
            assert(a.live.contains(self.norm.w.buffer));
            assert(b.holds(self.norm.w.buffer) == a.holds(self.norm.w.buffer));
        }
        let xn = self.norm.forward(rec, &x, rows);
        rec.recycle(x);
        let ghost c = rec@;
        let r = if !slice {
            xn
        } else {
            let last = grid(rec, 1, hidden);
            proof {
                lemma_numel_2(rows, hidden);
                lemma_numel_2(1, hidden);
                assert((rows - 1) * hidden + hidden == rows * hidden) by (nonlinear_arith);
                assert((rows - 1) * hidden >= 0) by (nonlinear_arith)
                    requires
                        rows > 0,
                        hidden >= 0,
                ;
                assert(1 * hidden == hidden);
            }
            copy_range(rec, &xn, &last, (rows - 1) * hidden, 0, hidden);
            rec.recycle(xn);
            last
        };
        proof {
            let d = rec@;
            assert(d.live =~= a.live.remove(x0).insert(r.buffer));
            assert forall|id: usize| kv.uses(id) implies #[trigger] d.holds(id) == b.holds(id) by {
                let all = kv.k@ + kv.v@;
                let i = choose|i: int| 0 <= i < all.len() && (#[trigger] all[i]).buffer == id;
                assert(all[i].ok(a));
                assert(a.live.contains(id));
                assert(c.live.contains(id));
                assert(c.holds(id) == b.holds(id));
            }
            lemma_terms_kept(*kv, b, d);
        }
        r
    }

    /// Records embedding, blocks, final norm and LM head, returning the logits tensor
    /// `[1, vocab]` for the last position. Prefill (`base_pos == 0`, many ids) and decode (one id)
    /// flow through the same path.
    pub fn record_logits(&self, rec: &mut Recorder, ids: &[u32], kv: &KvCache, base_pos: usize) -> (r:
        Tensor)
        requires
            old(rec).wf(),
            self.ok(old(rec)@),
            self.apart(*kv, old(rec)@),
            ids@.len() > 0,
            self.fits(ids@.len() as usize, base_pos),
        ensures
            final(rec).wf(),
            advanced(old(rec)@, final(rec)@, r, *kv),
            r.shape@ == seq![1usize, self.cfg.vocab],
            r.dtype == DType::F32,
            ({
                let f = self.logits(
                    old(rec)@,
                    ids@,
                    base_pos,
                    kv.max_seq,
                    terms(kv.k@, old(rec)@),
                    terms(kv.v@, old(rec)@),
                );
                &&& r.in_dev(final(rec)@) == f.x
                &&& terms(kv.k@, final(rec)@) == f.k
                &&& terms(kv.v@, final(rec)@) == f.v
            }),
    {
        self.record_step(rec, ids, kv, base_pos, ids.len() != 1)
    }

    /// Records a step; where `slice` says so, the last row is copied out of the hidden states
    /// before the LM head.
    #[verifier::rlimit(30)]
    pub(crate) fn record_step(
        &self,
        rec: &mut Recorder,
        ids: &[u32],
        kv: &KvCache,
        base_pos: usize,
        slice: bool,
    ) -> (r: Tensor)
        requires
            old(rec).wf(),
            self.ok(old(rec)@),
            self.apart(*kv, old(rec)@),
            ids@.len() > 0,
            self.fits(ids@.len() as usize, base_pos),
        ensures
            final(rec).wf(),
            advanced(old(rec)@, final(rec)@, r, *kv),
            r.shape@ == seq![1usize, self.cfg.vocab],
            r.dtype == DType::F32,
            ({
                let f = self.sliced_logits(
                    old(rec)@,
                    ids@,
                    base_pos,
                    kv.max_seq,
                    terms(kv.k@, old(rec)@),
                    terms(kv.v@, old(rec)@),
                    slice,
                );
                &&& r.in_dev(final(rec)@) == f.x
                &&& terms(kv.k@, final(rec)@) == f.k
                &&& terms(kv.v@, final(rec)@) == f.v
            }),
    {
        let ghost a = rec@;
        let (hidden, vocab) = (self.cfg.hidden, self.cfg.vocab);
        let rows = ids.len();
        let x = self.embed(rec, ids);
        let ghost b = rec@;
        let ghost xb = x.buffer;
        proof {
            let start = Flow { x: x.in_dev(b), k: terms(kv.k@, a), v: terms(kv.v@, a) };
            assert forall|l: int, id: usize|
                0 <= l < self.blocks@.len() && #[trigger] self.blocks@[l].uses(id) implies kept(
                a,
                b,
                id,
            ) by {
                assert(a.live.contains(id));
                assert(b.holds(id) == a.holds(id));
            }
            lemma_through_kept(
                self.blocks@,
                self.blocks@.len() as int,
                a,
                b,
                start,
                rows,
                base_pos,
                kv.max_seq,
            );
            lemma_caches_kept(*kv, a, b);
        }
        let last = self.run_blocks_last(rec, x, kv, rows, base_pos, slice);
        let ghost c = rec@;
        let logits = grid(rec, 1, vocab);
        linear_f16w(rec, &last, self.lm_head_weight(), &logits, 1, hidden, vocab);
        rec.recycle(last);
        proof {
            let d = rec@;
            assert(d.live =~= a.live.insert(logits.buffer));
            assert forall|id: usize| kv.uses(id) implies #[trigger] d.holds(id) == c.holds(id) by {
                let all = kv.k@ + kv.v@;
                let i = choose|i: int| 0 <= i < all.len() && (#[trigger] all[i]).buffer == id;
                assert(all[i].ok(a));
                assert(a.live.contains(id));
                assert(c.live.contains(id));
            }
            lemma_terms_kept(*kv, c, d);
        }
        logits
    }

    /// Records a prefill over `ids`, returning the tensor of the logits (`[1, vocab]`) for the last
    /// position.
    pub fn forward_prefill(&self, rec: &mut Recorder, ids: &[u32], kv: &KvCache) -> (r: Tensor)
        requires
            old(rec).wf(),
            self.ok(old(rec)@),
            self.apart(*kv, old(rec)@),
            ids@.len() > 0,
            self.fits(ids@.len() as usize, 0),
        ensures
            final(rec).wf(),
            advanced(old(rec)@, final(rec)@, r, *kv),
            r.shape@ == seq![1usize, self.cfg.vocab],
            r.dtype == DType::F32,
            ({
                let f = self.logits(
                    old(rec)@,
                    ids@,
                    0,
                    kv.max_seq,
                    terms(kv.k@, old(rec)@),
                    terms(kv.v@, old(rec)@),
                );
                &&& r.in_dev(final(rec)@) == f.x
                &&& terms(kv.k@, final(rec)@) == f.k
                &&& terms(kv.v@, final(rec)@) == f.v
            }),
    {
        self.record_logits(rec, ids, kv, 0)
    }

    /// Records the decoding of one `token` at absolute position `pos`, returning the tensor of the
    /// logits (`[1, vocab]`).
    pub fn forward_decode(&self, rec: &mut Recorder, token: u32, pos: usize, kv: &KvCache) -> (r:
        Tensor)
        requires
            old(rec).wf(),
            self.ok(old(rec)@),
            self.apart(*kv, old(rec)@),
            self.fits(1, pos),
        ensures
            final(rec).wf(),
            advanced(old(rec)@, final(rec)@, r, *kv),
            r.shape@ == seq![1usize, self.cfg.vocab],
            r.dtype == DType::F32,
            ({
                let f = self.logits(
                    old(rec)@,
                    seq![token],
                    pos,
                    kv.max_seq,
                    terms(kv.k@, old(rec)@),
                    terms(kv.v@, old(rec)@),
                );
                &&& r.in_dev(final(rec)@) == f.x
                &&& terms(kv.k@, final(rec)@) == f.k
                &&& terms(kv.v@, final(rec)@) == f.v
            }),
    {
        let ids: [u32; 1] = [token];
        assert(ids@ =~= seq![token]);
        self.record_logits(rec, &ids, kv, pos)
    }

    /// Records the logits for the last of `ids` and the index of the largest of them, returning the
    /// tensor of the index.
    fn record_argmax(&self, rec: &mut Recorder, ids: &[u32], kv: &KvCache, base_pos: usize) -> (r:
        Tensor)
        requires
            old(rec).wf(),
            self.ok(old(rec)@),
            self.apart(*kv, old(rec)@),
            ids@.len() > 0,
            self.fits(ids@.len() as usize, base_pos),
        ensures
            final(rec).wf(),
            advanced(old(rec)@, final(rec)@, r, *kv),
            r.shape@ == seq![1usize],
            r.dtype == DType::U32,
            ({
                let f = self.logits(
                    old(rec)@,
                    ids@,
                    base_pos,
                    kv.max_seq,
                    terms(kv.k@, old(rec)@),
                    terms(kv.v@, old(rec)@),
                );
                &&& r.in_dev(final(rec)@) == argmax_term(f.x, self.cfg.vocab, Term::Unset)
                &&& terms(kv.k@, final(rec)@) == f.k
                &&& terms(kv.v@, final(rec)@) == f.v
            }),
    {
        let ghost a = rec@;
        let logits = self.record_logits(rec, ids, kv, base_pos);
        let ghost b = rec@;
        let shape: [usize; 1] = [1];
        proof {
            lemma_numel_1(1);
            assert(shape@ =~= seq![1usize]);
        }
        let out_idx = rec.empty(&shape, DType::U32);
        argmax(rec, &logits, &out_idx, self.cfg.vocab);
        rec.recycle(logits);
        proof {
            let d = rec@;
            assert(d.live =~= a.live.insert(out_idx.buffer));
            assert forall|id: usize| kv.uses(id) implies #[trigger] d.holds(id) == b.holds(id) by {
                let all = kv.k@ + kv.v@;
                let i = choose|i: int| 0 <= i < all.len() && (#[trigger] all[i]).buffer == id;
                assert(all[i].ok(a));
                assert(a.live.contains(id));
                assert(b.live.contains(id));
            }
            lemma_terms_kept(*kv, b, d);
        }
        out_idx
    }

    /// Records a prefill over `ids` and the greedy (argmax) next token, to be read back as a single
    /// number instead of the whole vocabulary. The softcap is monotonic, so it does not change the
    /// argmax.
    pub fn prefill_argmax(&self, rec: &mut Recorder, ids: &[u32], kv: &KvCache) -> (r: Tensor)
        requires
            old(rec).wf(),
            self.ok(old(rec)@),
            self.apart(*kv, old(rec)@),
            ids@.len() > 0,
            self.fits(ids@.len() as usize, 0),
        ensures
            final(rec).wf(),
            advanced(old(rec)@, final(rec)@, r, *kv),
            r.shape@ == seq![1usize],
            r.dtype == DType::U32,
            ({
                let f = self.logits(
                    old(rec)@,
                    ids@,
                    0,
                    kv.max_seq,
                    terms(kv.k@, old(rec)@),
                    terms(kv.v@, old(rec)@),
                );
                &&& r.in_dev(final(rec)@) == argmax_term(f.x, self.cfg.vocab, Term::Unset)
                &&& terms(kv.k@, final(rec)@) == f.k
                &&& terms(kv.v@, final(rec)@) == f.v
            }),
    {
        self.record_argmax(rec, ids, kv, 0)
    }

    /// Records the decoding of one `token` at position `pos` and the greedy (argmax) next token.
    pub fn decode_argmax(&self, rec: &mut Recorder, token: u32, pos: usize, kv: &KvCache) -> (r:
        Tensor)
        requires
            old(rec).wf(),
            self.ok(old(rec)@),
            self.apart(*kv, old(rec)@),
            self.fits(1, pos),
        ensures
            final(rec).wf(),
            advanced(old(rec)@, final(rec)@, r, *kv),
            r.shape@ == seq![1usize],
            r.dtype == DType::U32,
            ({
                let f = self.logits(
                    old(rec)@,
                    seq![token],
                    pos,
                    kv.max_seq,
                    terms(kv.k@, old(rec)@),
                    terms(kv.v@, old(rec)@),
                );
                &&& r.in_dev(final(rec)@) == argmax_term(f.x, self.cfg.vocab, Term::Unset)
                &&& terms(kv.k@, final(rec)@) == f.k
                &&& terms(kv.v@, final(rec)@) == f.v
            }),
    {
        let ids: [u32; 1] = [token];
        assert(ids@ =~= seq![token]);
        self.record_argmax(rec, &ids, kv, pos)
    }
}

/// The token whose id was read back: the first word of the bytes.
pub fn token_of(bytes: &[u8]) -> (r: u32)
    requires
        bytes@.len() >= 4,
    ensures
        r == le32(bytes@, 0),
{
    read32(bytes, 0)
}

/// Whether a model computes the same on two devices from the same caches.
pub open spec fn computes_alike<B: Block>(
    m: LanguageModel<B>,
    a: DeviceView,
    b: DeviceView,
) -> bool {
    forall|
        ids: Seq<u32>,
        base_pos: usize,
        max_seq: usize,
        k: Seq<Term>,
        v: Seq<Term>,
        slice: bool,
    | #[trigger]
        m.sliced_logits(b, ids, base_pos, max_seq, k, v, slice) == m.sliced_logits(
            a,
            ids,
            base_pos,
            max_seq,
            k,
            v,
            slice,
        )
}

/// A model computes the same as long as its weights are kept.
pub proof fn lemma_model_kept<B: Block>(m: LanguageModel<B>, a: DeviceView, b: DeviceView)
    requires
        m.ok(a),
        kept(a, b, m.embed_w.buffer),
        m.lm_head_w is Some ==> kept(a, b, m.lm_head_w->Some_0.buffer),
        kept(a, b, m.norm.w.buffer),
        forall|l: int, id: usize|
            0 <= l < m.blocks@.len() && #[trigger] m.blocks@[l].uses(id) ==> kept(a, b, id),
    ensures
        m.ok(b),
        computes_alike(m, a, b),
{
    let n = m.blocks@.len() as int;
    assert forall|l: int| 0 <= l < n implies (#[trigger] m.blocks@[l]).ok(b) by {
        m.blocks@[l].lemma_kept(a, b);
    }
    assert forall|
        ids: Seq<u32>,
        base_pos: usize,
        max_seq: usize,
        k: Seq<Term>,
        v: Seq<Term>,
        slice: bool,
    | #[trigger]
        m.sliced_logits(b, ids, base_pos, max_seq, k, v, slice) == m.sliced_logits(
            a,
            ids,
            base_pos,
            max_seq,
            k,
            v,
            slice,
        ) by {
        let x = embedded(m.embed_w.in_dev(a), m.embed_scale, ids, m.cfg.hidden);
        let start = Flow { x, k, v };
        lemma_through_kept(m.blocks@, n, a, b, start, ids.len() as usize, base_pos, max_seq);
    }
}

/// New caches are apart from the model that they were allocated for: the model can run on them at
/// once, and computes what it computed before.
pub proof fn lemma_new_caches<B: Block>(
    m: LanguageModel<B>,
    kv: KvCache,
    max_seq: usize,
    a: DeviceView,
    b: DeviceView,
)
    requires
        a.wf(),
        m.ok(a),
        m.head_dims@.len() == m.blocks@.len(),
        kv.allocated(m.head_dims@, max_seq, m.n_kv_heads, a, b),
    ensures
        m.ok(b),
        m.apart(kv, b),
        computes_alike(m, a, b),
{
    assert forall|l: int, id: usize|
        0 <= l < m.blocks@.len() && #[trigger] m.blocks@[l].uses(id) implies kept(a, b, id)
        && !kv.uses(id) by {
        assert(a.live.contains(id));
        assert(b.holds(id) == a.holds(id));
    }
    assert(a.live.contains(m.embed_w.buffer));
    assert(a.live.contains(m.norm.w.buffer));
    if m.lm_head_w is Some {
        assert(a.live.contains(m.lm_head_w->Some_0.buffer));
    }
    lemma_model_kept(m, a, b);
}

/// A step leaves the model able to take the next one on the same caches, and computing what it
/// computed before.
pub proof fn lemma_step_after_step<B: Block>(
    m: LanguageModel<B>,
    kv: KvCache,
    r: Tensor,
    a: DeviceView,
    b: DeviceView,
)
    requires
        a.wf(),
        m.ok(a),
        m.apart(kv, a),
        advanced(a, b, r, kv),
    ensures
        m.ok(b),
        m.apart(kv, b),
        computes_alike(m, a, b),
{
    assert forall|l: int, id: usize|
        0 <= l < m.blocks@.len() && #[trigger] m.blocks@[l].uses(id) implies kept(a, b, id) by {
        assert(a.live.contains(id));
        assert(b.holds(id) == a.holds(id));
    }
    lemma_model_kept(m, a, b);
    let all = kv.k@ + kv.v@;
    assert forall|i: int| 0 <= i < all.len() implies (#[trigger] all[i]).ok(b) by {
        assert(all[i].ok(a));
    }
}

/// Whether `b` is `a` after a tensor was given back and nothing else happened.
pub open spec fn gave_back(a: DeviceView, b: DeviceView, t: Tensor) -> bool {
    &&& b.live == a.live.remove(t.buffer)
    &&& same_but(a, b, Set::empty())
}

/// Giving back the tensor of a step leaves the model able to take the next step, computing what it
/// computed before, and the caches holding what the step wrote.
pub proof fn lemma_step_given_back<B: Block>(
    m: LanguageModel<B>,
    kv: KvCache,
    r: Tensor,
    a: DeviceView,
    b: DeviceView,
    c: DeviceView,
)
    requires
        a.wf(),
        m.ok(a),
        m.apart(kv, a),
        advanced(a, b, r, kv),
        gave_back(b, c, r),
    ensures
        m.ok(c),
        m.apart(kv, c),
        computes_alike(m, a, c),
        terms(kv.k@, c) == terms(kv.k@, b),
        terms(kv.v@, c) == terms(kv.v@, b),
{
    assert forall|l: int, id: usize|
        0 <= l < m.blocks@.len() && #[trigger] m.blocks@[l].uses(id) implies kept(a, c, id) by {
        assert(a.live.contains(id));
        assert(b.live.contains(id));
        assert(b.holds(id) == a.holds(id));
        assert(c.holds(id) == b.holds(id));
    }
    assert(c.holds(m.embed_w.buffer) == b.holds(m.embed_w.buffer));
    assert(c.holds(m.norm.w.buffer) == b.holds(m.norm.w.buffer));
    if m.lm_head_w is Some {
        assert(c.holds(m.lm_head_w->Some_0.buffer) == b.holds(m.lm_head_w->Some_0.buffer));
    }
    lemma_model_kept(m, a, c);
    let all = kv.k@ + kv.v@;
    assert forall|i: int| 0 <= i < all.len() implies (#[trigger] all[i]).ok(c) by {
        assert(all[i].ok(a));
    }
    assert forall|id: usize| kv.uses(id) implies #[trigger] c.holds(id) == b.holds(id) by {
        let i = choose|i: int| 0 <= i < all.len() && (#[trigger] all[i]).buffer == id;
        assert(all[i].ok(a));
    }
    lemma_terms_kept(kv, b, c);
}

/// Caches stay in use and hold what they held while only new buffers are used.
proof fn lemma_caches_kept(kv: KvCache, a: DeviceView, b: DeviceView)
    requires
        kv.ok(a),
        same_but(a, b, Set::empty()),
        forall|id: usize| #[trigger] a.live.contains(id) ==> b.live.contains(id),
    ensures
        kv.ok(b),
        terms(kv.k@, b) == terms(kv.k@, a),
        terms(kv.v@, b) == terms(kv.v@, a),
{
    let all = kv.k@ + kv.v@;
    assert forall|i: int| 0 <= i < all.len() implies (#[trigger] all[i]).ok(b) by {
        assert(all[i].ok(a));
    }
    assert forall|id: usize| kv.uses(id) implies #[trigger] b.holds(id) == a.holds(id) by {
        let i = choose|i: int| 0 <= i < all.len() && (#[trigger] all[i]).buffer == id;
        assert(all[i].ok(a));
    }
    lemma_terms_kept(kv, a, b);
}

/// Caches that are kept hold what they held.
proof fn lemma_terms_kept(kv: KvCache, a: DeviceView, b: DeviceView)
    requires
        forall|id: usize| kv.uses(id) ==> #[trigger] b.holds(id) == a.holds(id),
    ensures
        terms(kv.k@, b) == terms(kv.k@, a),
        terms(kv.v@, b) == terms(kv.v@, a),
{
    let all = kv.k@ + kv.v@;
    assert forall|i: int| 0 <= i < kv.k@.len() implies #[trigger] terms(kv.k@, b)[i] == terms(
        kv.k@,
        a,
    )[i] by {
        assert(all[i] == kv.k@[i]);
        assert(kv.uses(all[i].buffer));
    }
    assert forall|i: int| 0 <= i < kv.v@.len() implies #[trigger] terms(kv.v@, b)[i] == terms(
        kv.v@,
        a,
    )[i] by {
        assert(all[kv.k@.len() + i] == kv.v@[i]);
        assert(kv.uses(all[kv.k@.len() + i].buffer));
    }
    assert(terms(kv.k@, b) =~= terms(kv.k@, a));
    assert(terms(kv.v@, b) =~= terms(kv.v@, a));
}

/// Blocks compute the same as long as their weights are kept.
pub proof fn lemma_through_kept<B: Block>(
    blocks: Seq<B>,
    n: int,
    a: DeviceView,
    b: DeviceView,
    flow: Flow,
    rows: usize,
    base_pos: usize,
    max_seq: usize,
)
    requires
        n <= blocks.len(),
        forall|l: int| 0 <= l < blocks.len() ==> (#[trigger] blocks[l]).ok(a),
        forall|l: int, id: usize|
            0 <= l < blocks.len() && #[trigger] blocks[l].uses(id) ==> kept(a, b, id),
    ensures
        through(blocks, n, b, flow, rows, base_pos, max_seq) == through(
            blocks,
            n,
            a,
            flow,
            rows,
            base_pos,
            max_seq,
        ),
        forall|l: int| 0 <= l < blocks.len() ==> (#[trigger] blocks[l]).ok(b),
    decreases n,
{
    assert forall|l: int| 0 <= l < blocks.len() implies (#[trigger] blocks[l]).ok(b) by {
        blocks[l].lemma_kept(a, b);
    }
    if n > 0 {
        lemma_through_kept(blocks, n - 1, a, b, flow, rows, base_pos, max_seq);
        blocks[n - 1].lemma_kept(a, b);
    }
}

proof fn lemma_through_fresh<B: Block>(
    blocks: Seq<B>,
    n: int,
    d: DeviceView,
    x: Term,
    k: Seq<Term>,
    v: Seq<Term>,
    k2: Seq<Term>,
    v2: Seq<Term>,
    rows: usize,
    max_seq: usize,
)
    requires
        rows > 1,
        n <= blocks.len(),
    ensures
        through(blocks, n, d, (Flow { x, k, v }), rows, 0, max_seq).x == through(
            blocks,
            n,
            d,
            (Flow { x, k: k2, v: v2 }),
            rows,
            0,
            max_seq,
        ).x,
    decreases n,
{
    if n > 0 {
        lemma_through_fresh(blocks, n - 1, d, x, k, v, k2, v2, rows, max_seq);
        let f = through(blocks, n - 1, d, Flow { x, k, v }, rows, 0, max_seq);
        let g = through(blocks, n - 1, d, Flow { x, k: k2, v: v2 }, rows, 0, max_seq);
        blocks[n - 1].lemma_fresh(
            d,
            f.x,
            rows,
            max_seq,
            f.k[n - 1],
            f.v[n - 1],
            g.k[n - 1],
            g.v[n - 1],
        );
    }
}

/// The logits for a prompt of several tokens do not depend on what the caches held before, so they
/// are the same on all fresh caches.
pub proof fn lemma_prompt_starts_afresh<B: Block>(
    m: LanguageModel<B>,
    d: DeviceView,
    ids: Seq<u32>,
    max_seq: usize,
    k: Seq<Term>,
    v: Seq<Term>,
    k2: Seq<Term>,
    v2: Seq<Term>,
)
    requires
        1 < ids.len() <= usize::MAX,
    ensures
        m.logits(d, ids, 0, max_seq, k, v).x == m.logits(d, ids, 0, max_seq, k2, v2).x,
{
    let x = embedded(m.embed_w.in_dev(d), m.embed_scale, ids, m.cfg.hidden);
    let n = m.blocks@.len() as int;
    lemma_through_fresh(m.blocks@, n, d, x, k, v, k2, v2, ids.len() as usize, max_seq);
}

/// What a step that leaves logits (`forward_prefill`, `forward_decode`) states of them.
pub open spec fn left_logits<B: Block>(
    m: LanguageModel<B>,
    ids: Seq<u32>,
    base_pos: usize,
    kv: KvCache,
    r: Tensor,
    a: DeviceView,
    b: DeviceView,
) -> bool {
    let f = m.logits(a, ids, base_pos, kv.max_seq, terms(kv.k@, a), terms(kv.v@, a));
    advanced(a, b, r, kv) && r.in_dev(b) == f.x
}

/// What a step that leaves a token (`prefill_argmax`, `decode_argmax`) states of it.
pub open spec fn left_token<B: Block>(
    m: LanguageModel<B>,
    ids: Seq<u32>,
    base_pos: usize,
    kv: KvCache,
    r: Tensor,
    a: DeviceView,
    b: DeviceView,
) -> bool {
    let f = m.logits(a, ids, base_pos, kv.max_seq, terms(kv.k@, a), terms(kv.v@, a));
    advanced(a, b, r, kv) && r.in_dev(b) == argmax_term(f.x, m.cfg.vocab, Term::Unset)
}

/// The token of a step is the argmax over the very logits that the step with the logits leaves, on
/// caches that hold the same: `m` and `n` are one model but for the softcap, which has no part in
/// it.
pub proof fn lemma_token_of_logits<B: Block>(
    m: LanguageModel<B>,
    n: LanguageModel<B>,
    ids: Seq<u32>,
    base_pos: usize,
    kv: KvCache,
    kv2: KvCache,
    logits: Tensor,
    token: Tensor,
    a: DeviceView,
    b: DeviceView,
    c: DeviceView,
    e: DeviceView,
)
    requires
        n == (LanguageModel { logit_softcap: n.logit_softcap, ..m }),
        left_logits(m, ids, base_pos, kv, logits, a, b),
        left_token(n, ids, base_pos, kv2, token, c, e),
        computes_alike(m, a, c),
        kv.max_seq == kv2.max_seq,
        terms(kv.k@, a) == terms(kv2.k@, c),
        terms(kv.v@, a) == terms(kv2.v@, c),
    ensures
        token.in_dev(e) == argmax_term(logits.in_dev(b), m.cfg.vocab, Term::Unset),
{
    let (k, v) = (terms(kv.k@, a), terms(kv.v@, a));
    assert(m.sliced_logits(c, ids, base_pos, kv.max_seq, k, v, ids.len() != 1) == m.sliced_logits(
        a,
        ids,
        base_pos,
        kv.max_seq,
        k,
        v,
        ids.len() != 1,
    ));
}

/// The greedy token for a prompt is the argmax over the very logits of the prompt, with the softcap
/// or without: the logits are left by a prefill on one new cache, the token by one on another new
/// cache of the same size. New caches hold anything, which matters to a prompt of one token only:
/// there they have to hold the same.
pub proof fn lemma_prefill_token_of_logits<B: Block>(
    m: LanguageModel<B>,
    n: LanguageModel<B>,
    ids: Seq<u32>,
    max_seq: usize,
    kv: KvCache,
    kv2: KvCache,
    logits: Tensor,
    token: Tensor,
    d: DeviceView,
    a: DeviceView,
    b: DeviceView,
    c: DeviceView,
    e: DeviceView,
)
    requires
        n == (LanguageModel { logit_softcap: n.logit_softcap, ..m }),
        d.wf(),
        m.ok(d),
        m.head_dims@.len() == m.blocks@.len(),
        0 < ids.len() <= usize::MAX,
        kv.allocated(m.head_dims@, max_seq, m.n_kv_heads, d, a),
        a.wf(),
        left_logits(m, ids, 0, kv, logits, a, b),
        b.wf(),
        kv2.allocated(m.head_dims@, max_seq, m.n_kv_heads, b, c),
        left_token(n, ids, 0, kv2, token, c, e),
        ids.len() == 1 ==> terms(kv.k@, a) == terms(kv2.k@, c) && terms(kv.v@, a) == terms(
            kv2.v@,
            c,
        ),
    ensures
        token.in_dev(e) == argmax_term(logits.in_dev(b), m.cfg.vocab, Term::Unset),
{
    lemma_new_caches(m, kv, max_seq, d, a);
    lemma_step_after_step(m, kv, logits, a, b);
    lemma_new_caches(m, kv2, max_seq, b, c);
    let (k, v) = (terms(kv.k@, a), terms(kv.v@, a));
    let (k2, v2) = (terms(kv2.k@, c), terms(kv2.v@, c));
    if ids.len() > 1 {
        lemma_prompt_starts_afresh(m, a, ids, max_seq, k, v, k2, v2);
    }
    let slice = ids.len() != 1;
    assert(m.sliced_logits(b, ids, 0, max_seq, k2, v2, slice) == m.sliced_logits(
        a,
        ids,
        0,
        max_seq,
        k2,
        v2,
        slice,
    ));
    assert(m.sliced_logits(c, ids, 0, max_seq, k2, v2, slice) == m.sliced_logits(
        b,
        ids,
        0,
        max_seq,
        k2,
        v2,
        slice,
    ));
}

} // verus!
