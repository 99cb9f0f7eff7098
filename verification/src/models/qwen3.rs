//! Qwen3 (dense): RMSNorm, attention (GQA, QK-RMSNorm, RoPE), residual, RMSNorm, SwiGLU MLP,
//! residual per layer, then the final RMSNorm and the LM head. The whole forward step records into
//! one recorder and is submitted once.

use vstd::prelude::*;

use crate::error::{DType, Result};
use crate::gpu::device::Device;
use crate::gpu::recorder::Recorder;
use crate::gpu::tensor::Tensor;
use crate::models::decoder::{
    decoder_sized, load_ordered, loads, DecoderNumbers, DecoderOpts, LayerOrder, StandardBlock,
};
use crate::models::model::{advanced, terms, LanguageModel};
use crate::nn::kv_cache::KvCache;
use crate::nn::rope::fits_heads;
use crate::source::WeightSource;

verus! {

/// Loads a Qwen3 model for the architecture-agnostic driver.
pub fn load<S: WeightSource>(
    dev: &mut Device,
    src: &S,
    max_seq: usize,
    numbers: DecoderNumbers,
) -> (r: Result<LanguageModel<StandardBlock>>)
    requires
        old(dev)@.wf(),
        decoder_sized(src.spec_config(), max_seq, numbers),
    ensures
        final(dev)@.wf(),
        loads(
            *src,
            (LayerOrder { has_qk_norm: true, norms_late: false }),
            max_seq,
            numbers,
            r,
            old(dev)@,
            final(dev)@,
        ),
{
    crate::models::decoder::load(dev, src, max_seq, DecoderOpts { has_qk_norm: true }, numbers)
}

/// A loaded Qwen3 model with a forward pass of its own: a prefill always slices the last hidden row
/// out before the LM head, a decode step never does.
pub struct Qwen3Model {
    pub model: LanguageModel<StandardBlock>,
}

/// The decoder in a model that was loaded.
pub open spec fn inner(r: Result<Qwen3Model>) -> Result<LanguageModel<StandardBlock>> {
    match r {
        Ok(m) => Ok(m.model),
        Err(e) => Err(e),
    }
}

impl Qwen3Model {
    /// Loads all weights from a source, with rotary tables up to `max_seq`.
    pub fn load<S: WeightSource>(
        dev: &mut Device,
        src: &S,
        max_seq: usize,
        numbers: DecoderNumbers,
    ) -> (r: Result<Self>)
        requires
            old(dev)@.wf(),
            decoder_sized(src.spec_config(), max_seq, numbers),
        ensures
            final(dev)@.wf(),
            loads(
                *src,
                (LayerOrder { has_qk_norm: true, norms_late: true }),
                max_seq,
                numbers,
                inner(r),
                old(dev)@,
                final(dev)@,
            ),
    {
        let order = LayerOrder { has_qk_norm: true, norms_late: true };
        match load_ordered(dev, src, max_seq, order, numbers) {
            Ok(model) => Ok(Qwen3Model { model }),
            Err(e) => Err(e),
        }
    }

    /// Builds a KV cache sized for this model and the given max sequence length.
    pub fn new_kv_cache(&self, dev: &mut Device, max_seq: usize) -> (r: KvCache)
        requires
            old(dev)@.wf(),
            fits_heads(
                max_seq as int,
                self.model.cfg.n_kv_heads as int,
                self.model.cfg.head_dim as int,
            ),
        ensures
            final(dev)@.wf(),
            r.allocated(
                Seq::new(self.model.cfg.n_layers as nat, |i: int| self.model.cfg.head_dim),
                max_seq,
                self.model.cfg.n_kv_heads,
                old(dev)@,
                final(dev)@,
            ),
    {
        let cfg = &self.model.cfg;
        KvCache::new(dev, cfg.n_layers, max_seq, cfg.n_kv_heads, cfg.head_dim)
    }

    /// Records a prefill: embeds `ids`, runs all blocks (filling the cache for positions
    /// `0..len`), and returns the tensor of the logits (`[1, vocab]`) for the LAST position.
    pub fn forward_prefill(&self, rec: &mut Recorder, ids: &[u32], kv: &KvCache) -> (r: Tensor)
        requires
            old(rec).wf(),
            self.model.ok(old(rec)@),
            self.model.apart(*kv, old(rec)@),
            ids@.len() > 0,
            self.model.fits(ids@.len() as usize, 0),
        ensures
            final(rec).wf(),
            advanced(old(rec)@, final(rec)@, r, *kv),
            r.shape@ == seq![1usize, self.model.cfg.vocab],
            r.dtype == DType::F32,
            ({
                let f = self.model.sliced_logits(
                    old(rec)@,
                    ids@,
                    0,
                    kv.max_seq,
                    terms(kv.k@, old(rec)@),
                    terms(kv.v@, old(rec)@),
                    true,
                );
                &&& r.in_dev(final(rec)@) == f.x
                &&& terms(kv.k@, final(rec)@) == f.k
                &&& terms(kv.v@, final(rec)@) == f.v
            }),
    {
        self.model.record_step(rec, ids, kv, 0, true)
    }

    /// Records the decoding of one `token` at absolute position `pos`, returning the tensor of the
    /// logits (`[1, vocab]`).
    pub fn forward_decode(&self, rec: &mut Recorder, token: u32, pos: usize, kv: &KvCache) -> (r:
        Tensor)
        requires
            old(rec).wf(),
            self.model.ok(old(rec)@),
            self.model.apart(*kv, old(rec)@),
            self.model.fits(1, pos),
        ensures
            final(rec).wf(),
            advanced(old(rec)@, final(rec)@, r, *kv),
            r.shape@ == seq![1usize, self.model.cfg.vocab],
            r.dtype == DType::F32,
            ({
                let f = self.model.sliced_logits(
                    old(rec)@,
                    seq![token],
                    pos,
                    kv.max_seq,
                    terms(kv.k@, old(rec)@),
                    terms(kv.v@, old(rec)@),
                    false,
                );
                &&& r.in_dev(final(rec)@) == f.x
                &&& terms(kv.k@, final(rec)@) == f.k
                &&& terms(kv.v@, final(rec)@) == f.v
            }),
    {
        let ids: [u32; 1] = [token];
        assert(ids@ =~= seq![token]);
        self.model.record_step(rec, &ids, kv, pos, false)
    }
}

} // verus!
