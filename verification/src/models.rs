//! Per-architecture model loaders and the work that a forward step records. Most architectures
//! build a standard decoder; Gemma 4 has a loader of its own. [`load_model`] selects the loader by
//! the source's architecture and returns a [`Model`], which delegates to the concrete model.

pub mod decoder;
pub mod gemma4;
pub mod loading;
pub mod mistral;
pub mod model;
pub mod provenance;
pub mod qwen3;
pub mod sequence;
pub mod upload;

use vstd::prelude::*;

use crate::config::{Config, ConfigView};
use crate::error::{DType, ErrorView, EyebrowseError, Result};
use crate::gpu::device::{Device, DeviceView};
use crate::gpu::memory::Term;
use crate::gpu::recorder::Recorder;
use crate::gpu::tensor::Tensor;
use crate::kernels::argmax_term;
use crate::models::decoder::{
    decoder_in_range, decoder_sized, loads, DecoderNumbers, LayerOrder, StandardBlock,
};
use crate::models::gemma4::{
    early_fault, gemma_in_range, gemma_sized, loads_gemma, Gemma4, GemmaBlock, GemmaNumbers,
};
use crate::models::model::{
    advanced, computes_alike, gave_back, lemma_new_caches, lemma_prefill_token_of_logits,
    lemma_step_after_step, lemma_step_given_back, terms, Flow, LanguageModel,
};
use crate::nn::kv_cache::KvCache;
use crate::source::WeightSource;
use crate::text::{cat2, same};

verus! {

/// A family of architectures that share a loader.
#[derive(Clone, Copy, Debug, PartialEq, Eq, Structural)]
pub enum Family {
    Qwen3,
    Mistral,
    Gemma4,
}

/// The family of an architecture, where it is supported.
pub open spec fn family(arch: Seq<char>) -> Option<Family> {
    if arch == "qwen3"@ {
        Some(Family::Qwen3)
    } else if arch == "llama"@ || arch == "mistral"@ {
        Some(Family::Mistral)
    } else if arch == "gemma4"@ || arch == "gemma4_text"@ {
        Some(Family::Gemma4)
    } else {
        None
    }
}

/// The family of an architecture, where it is supported.
pub fn family_of(arch: &str) -> (r: Option<Family>)
    ensures
        r == family(arch@),
{
    if same(arch, "qwen3") {
        Some(Family::Qwen3)
    } else if same(arch, "llama") || same(arch, "mistral") {
        Some(Family::Mistral)
    } else if same(arch, "gemma4") || same(arch, "gemma4_text") {
        Some(Family::Gemma4)
    } else {
        None
    }
}

/// Numbers that a host computes for a model.
#[derive(Debug)]
pub enum Numbers {
    Decoder(DecoderNumbers),
    Gemma4(GemmaNumbers),
}

/// Whether numbers are those that the model of a configuration needs, and its sizes in range. An
/// architecture that is not supported needs none.
pub open spec fn numbers_match(cfg: ConfigView, max_seq: usize, numbers: Numbers) -> bool {
    match family(cfg.arch) {
        Some(Family::Gemma4) => numbers matches Numbers::Gemma4(n) && (early_fault(
            cfg.settings(),
        ) is None ==> gemma_sized(cfg, max_seq, n)),
        Some(_) => numbers matches Numbers::Decoder(n) && decoder_sized(cfg, max_seq, n),
        None => true,
    }
}

/// Tests whether numbers are those that the model of a configuration needs, and its sizes in range.
pub fn check_numbers(cfg: &Config, max_seq: usize, numbers: &Numbers) -> (r: bool)
    ensures
        r == numbers_match(cfg@, max_seq, *numbers),
{
    match family_of(cfg.arch.as_str()) {
        Some(Family::Gemma4) => match numbers {
            Numbers::Gemma4(n) => gemma4::check_early(&cfg.settings()).is_some() || gemma_in_range(
                cfg,
                max_seq,
                n,
            ),
            Numbers::Decoder(_) => false,
        },
        Some(_) => match numbers {
            Numbers::Decoder(n) => decoder_in_range(cfg, max_seq, n),
            Numbers::Gemma4(_) => false,
        },
        None => true,
    }
}

/// A loaded model of any supported architecture. Delegates the inference methods to the concrete
/// decoder so callers can stay architecture-agnostic.
pub enum Model {
    Decoder(LanguageModel<StandardBlock>),
    Gemma4(Gemma4),
}

/// A decoder in place of a model.
pub open spec fn as_decoder(r: Result<Model>) -> Result<LanguageModel<StandardBlock>> {
    match r {
        Ok(m) => Ok(m->Decoder_0),
        Err(e) => Err(e),
    }
}

/// A Gemma 4 model in place of a model.
pub open spec fn as_gemma(r: Result<Model>) -> Result<LanguageModel<GemmaBlock>> {
    match r {
        Ok(m) => Ok(m->Gemma4_0.model),
        Err(e) => Err(e),
    }
}

/// What loading a model gives.
pub open spec fn loads_model<S: WeightSource>(
    src: S,
    max_seq: usize,
    numbers: Numbers,
    r: Result<Model>,
    a: DeviceView,
    b: DeviceView,
) -> bool {
    let arch = src.spec_config().arch;
    match family(arch) {
        Some(Family::Qwen3) => {
            &&& r is Ok ==> r->Ok_0 is Decoder
            &&& loads(
                src,
                (LayerOrder { has_qk_norm: true, norms_late: false }),
                max_seq,
                numbers->Decoder_0,
                as_decoder(r),
                a,
                b,
            )
        },
        Some(Family::Mistral) => {
            &&& r is Ok ==> r->Ok_0 is Decoder
            &&& loads(
                src,
                (LayerOrder { has_qk_norm: false, norms_late: false }),
                max_seq,
                numbers->Decoder_0,
                as_decoder(r),
                a,
                b,
            )
        },
        Some(Family::Gemma4) => {
            &&& r is Ok ==> r->Ok_0 is Gemma4
            &&& loads_gemma(src, max_seq, numbers->Gemma4_0, as_gemma(r), a, b)
        },
        None => {
            &&& r is Err
            &&& r->Err_0@ == ErrorView::UnsupportedConfig("architecture "@ + arch)
            &&& b == a
        },
    }
}

/// Builds the model for the source's architecture, sized to `max_seq`.
pub fn load_model<S: WeightSource>(
    dev: &mut Device,
    src: &S,
    max_seq: usize,
    numbers: Numbers,
) -> (r: Result<Model>)
    requires
        old(dev)@.wf(),
        numbers_match(src.spec_config(), max_seq, numbers),
    ensures
        final(dev)@.wf(),
        loads_model(*src, max_seq, numbers, r, old(dev)@, final(dev)@),
{
    let arch = src.config().arch.as_str();
    match (family_of(arch), numbers) {
        (Some(Family::Qwen3), Numbers::Decoder(n)) => match qwen3::load(dev, src, max_seq, n) {
            Ok(m) => Ok(Model::Decoder(m)),
            Err(e) => Err(e),
        },
        (Some(Family::Mistral), Numbers::Decoder(n)) => match mistral::load(dev, src, max_seq, n) {
            Ok(m) => Ok(Model::Decoder(m)),
            Err(e) => Err(e),
        },
        (Some(Family::Gemma4), Numbers::Gemma4(n)) => match Gemma4::load(dev, src, max_seq, n) {
            Ok(m) => Ok(Model::Gemma4(m)),
            Err(e) => Err(e),
        },
        _ => Err(EyebrowseError::UnsupportedConfig(cat2("architecture ", arch))),
    }
}

impl Model {
    /// Whether the weights are in use on a device and of matching sizes.
    pub open spec fn ok(self, d: DeviceView) -> bool {
        match self {
            Model::Decoder(m) => m.ok(d),
            Model::Gemma4(m) => m.model.ok(d),
        }
    }

    /// Whether the caches are in use on a device and are none of the model's weights.
    pub open spec fn apart(self, kv: KvCache, d: DeviceView) -> bool {
        match self {
            Model::Decoder(m) => m.apart(kv, d),
            Model::Gemma4(m) => m.model.apart(kv, d),
        }
    }

    /// Whether the machine can address what a step of `rows` rows computes.
    pub open spec fn fits(self, rows: usize, base_pos: usize) -> bool {
        match self {
            Model::Decoder(m) => m.fits(rows, base_pos),
            Model::Gemma4(m) => m.model.fits(rows, base_pos),
        }
    }

    /// Tests whether the machine can address what a step of `rows` rows computes.
    pub fn in_range(&self, rows: usize, base_pos: usize) -> (r: bool)
        ensures
            r == self.fits(rows, base_pos),
    {
        match self {
            Model::Decoder(m) => m.in_range(rows, base_pos),
            Model::Gemma4(m) => m.model.in_range(rows, base_pos),
        }
    }

    /// Whether the machine can address the caches for `max_seq` positions.
    pub open spec fn cache_fits(self, max_seq: usize) -> bool {
        match self {
            Model::Decoder(m) => m.cache_fits(max_seq),
            Model::Gemma4(m) => m.model.cache_fits(max_seq),
        }
    }

    /// Tests whether the machine can address the caches for `max_seq` positions.
    pub fn cache_in_range(&self, max_seq: usize) -> (r: bool)
        ensures
            r == self.cache_fits(max_seq),
    {
        match self {
            Model::Decoder(m) => m.cache_in_range(max_seq),
            Model::Gemma4(m) => m.model.cache_in_range(max_seq),
        }
    }

    /// The key/value head size of each layer.
    pub open spec fn head_dims(self) -> Seq<usize> {
        match self {
            Model::Decoder(m) => m.head_dims@,
            Model::Gemma4(m) => m.model.head_dims@,
        }
    }

    /// The number of layers.
    pub open spec fn layers(self) -> nat {
        match self {
            Model::Decoder(m) => m.blocks@.len(),
            Model::Gemma4(m) => m.model.blocks@.len(),
        }
    }

    /// The number of key/value heads.
    pub open spec fn n_kv_heads(self) -> usize {
        match self {
            Model::Decoder(m) => m.n_kv_heads,
            Model::Gemma4(m) => m.model.n_kv_heads,
        }
    }

    /// The number of tokens that the model knows.
    pub open spec fn vocab(self) -> usize {
        match self {
            Model::Decoder(m) => m.cfg.vocab,
            Model::Gemma4(m) => m.model.cfg.vocab,
        }
    }

    /// The softcap that the host applies to logits, where there is one.
    pub fn logit_softcap(&self) -> (r: Option<u32>)
        ensures
            r == match *self {
                Model::Decoder(m) => m.logit_softcap,
                Model::Gemma4(m) => m.model.logit_softcap,
            },
    {
        match self {
            Model::Decoder(m) => m.logit_softcap,
            Model::Gemma4(m) => m.model.logit_softcap,
        }
    }

    /// The logits for the last of the positions of `ids`, with what the caches then hold.
    pub open spec fn logits(
        self,
        d: DeviceView,
        ids: Seq<u32>,
        base_pos: usize,
        max_seq: usize,
        k: Seq<Term>,
        v: Seq<Term>,
    ) -> Flow {
        match self {
            Model::Decoder(m) => m.logits(d, ids, base_pos, max_seq, k, v),
            Model::Gemma4(m) => m.model.logits(d, ids, base_pos, max_seq, k, v),
        }
    }

    /// The logits that a prefill computes, with what the caches then hold.
    pub open spec fn prefilled(
        self,
        d: DeviceView,
        ids: Seq<u32>,
        max_seq: usize,
        k: Seq<Term>,
        v: Seq<Term>,
    ) -> Flow {
        match self {
            Model::Decoder(m) => m.logits(d, ids, 0, max_seq, k, v),
            Model::Gemma4(m) => m.model.sliced_logits(d, ids, 0, max_seq, k, v, true),
        }
    }

    /// Builds a KV cache sized for this model and the given max sequence length.
    pub fn new_kv_cache(&self, dev: &mut Device, max_seq: usize) -> (r: KvCache)
        requires
            old(dev)@.wf(),
            self.cache_fits(max_seq),
        ensures
            final(dev)@.wf(),
            r.allocated(self.head_dims(), max_seq, self.n_kv_heads(), old(dev)@, final(dev)@),
    {
        match self {
            Model::Decoder(m) => m.new_kv_cache(dev, max_seq),
            Model::Gemma4(m) => m.new_kv_cache(dev, max_seq),
        }
    }

    /// Records a prefill over `ids`, returning the tensor of the logits (`[1, vocab]`), before any
    /// softcap, for the last position.
    pub fn forward_prefill(&self, rec: &mut Recorder, ids: &[u32], kv: &KvCache) -> (r: Tensor)
        requires
            old(rec).wf(),
            self.ok(old(rec)@),
            self.apart(*kv, old(rec)@),
            ids@.len() > 0,
            self.fits(ids@.len() as usize, 0),
        ensures
            final(rec).wf(),
            advanced(old(rec)@, final(rec)@, r, *kv),
            r.shape@ == seq![1usize, self.vocab()],
            r.dtype == DType::F32,
            ({
                let f = self.prefilled(
                    old(rec)@,
                    ids@,
                    kv.max_seq,
                    terms(kv.k@, old(rec)@),
                    terms(kv.v@, old(rec)@),
                );
                &&& r.in_dev(final(rec)@) == f.x
                &&& terms(kv.k@, final(rec)@) == f.k
                &&& terms(kv.v@, final(rec)@) == f.v
            }),
    {
        match self {
            Model::Decoder(m) => m.forward_prefill(rec, ids, kv),
            Model::Gemma4(m) => m.forward_prefill(rec, ids, kv),
        }
    }

    /// Records the decoding of one `token` at absolute position `pos`, returning the tensor of the
    /// logits (`[1, vocab]`), before any softcap.
    pub fn forward_decode(&self, rec: &mut Recorder, token: u32, pos: usize, kv: &KvCache) -> (r:
        Tensor)
        requires
            old(rec).wf(),
            self.ok(old(rec)@),
            self.apart(*kv, old(rec)@),
            self.fits(1, pos),
        ensures
            final(rec).wf(),
            advanced(old(rec)@, final(rec)@, r, *kv),
            r.shape@ == seq![1usize, self.vocab()],
            r.dtype == DType::F32,
            ({
                let f = self.logits(
                    old(rec)@,
                    seq![token],
                    pos,
                    kv.max_seq,
                    terms(kv.k@, old(rec)@),
                    terms(kv.v@, old(rec)@),
                );
                &&& r.in_dev(final(rec)@) == f.x
                &&& terms(kv.k@, final(rec)@) == f.k
                &&& terms(kv.v@, final(rec)@) == f.v
            }),
    {
        match self {
            Model::Decoder(m) => m.forward_decode(rec, token, pos, kv),
            Model::Gemma4(m) => m.forward_decode(rec, token, pos, kv),
        }
    }

    /// Records a prefill over `ids` and the greedy (argmax) next token.
    pub fn prefill_argmax(&self, rec: &mut Recorder, ids: &[u32], kv: &KvCache) -> (r: Tensor)
        requires
            old(rec).wf(),
            self.ok(old(rec)@),
            self.apart(*kv, old(rec)@),
            ids@.len() > 0,
            self.fits(ids@.len() as usize, 0),
        ensures
            final(rec).wf(),
            advanced(old(rec)@, final(rec)@, r, *kv),
            r.shape@ == seq![1usize],
            r.dtype == DType::U32,
            ({
                let f = self.logits(
                    old(rec)@,
                    ids@,
                    0,
                    kv.max_seq,
                    terms(kv.k@, old(rec)@),
                    terms(kv.v@, old(rec)@),
                );
                &&& r.in_dev(final(rec)@) == argmax_term(f.x, self.vocab(), Term::Unset)
                &&& terms(kv.k@, final(rec)@) == f.k
                &&& terms(kv.v@, final(rec)@) == f.v
            }),
    {
        match self {
            Model::Decoder(m) => m.prefill_argmax(rec, ids, kv),
            Model::Gemma4(m) => m.model.prefill_argmax(rec, ids, kv),
        }
    }

    /// Records the decoding of one `token` at position `pos` and the greedy (argmax) next token.
    pub fn decode_argmax(&self, rec: &mut Recorder, token: u32, pos: usize, kv: &KvCache) -> (r:
        Tensor)
        requires
            old(rec).wf(),
            self.ok(old(rec)@),
            self.apart(*kv, old(rec)@),
            self.fits(1, pos),
        ensures
            final(rec).wf(),
            advanced(old(rec)@, final(rec)@, r, *kv),
            r.shape@ == seq![1usize],
            r.dtype == DType::U32,
            ({
                let f = self.logits(
                    old(rec)@,
                    seq![token],
                    pos,
                    kv.max_seq,
                    terms(kv.k@, old(rec)@),
                    terms(kv.v@, old(rec)@),
                );
                &&& r.in_dev(final(rec)@) == argmax_term(f.x, self.vocab(), Term::Unset)
                &&& terms(kv.k@, final(rec)@) == f.k
                &&& terms(kv.v@, final(rec)@) == f.v
            }),
    {
        match self {
            Model::Decoder(m) => m.decode_argmax(rec, token, pos, kv),
            Model::Gemma4(m) => m.model.decode_argmax(rec, token, pos, kv),
        }
    }

    /// Whether the model computes the same on two devices from the same caches.
    pub open spec fn alike(self, a: DeviceView, b: DeviceView) -> bool {
        match self {
            Model::Decoder(m) => computes_alike(m, a, b),
            Model::Gemma4(m) => computes_alike(m.model, a, b),
        }
    }
}

/// New caches are apart from the model that they were allocated for: the model can run on them at
/// once, and computes what it computed before.
pub proof fn lemma_model_new_caches(
    m: Model,
    kv: KvCache,
    max_seq: usize,
    a: DeviceView,
    b: DeviceView,
)
    requires
        a.wf(),
        m.ok(a),
        m.head_dims().len() == m.layers(),
        kv.allocated(m.head_dims(), max_seq, m.n_kv_heads(), a, b),
    ensures
        m.ok(b),
        m.apart(kv, b),
        m.alike(a, b),
{
    match m {
        Model::Decoder(m) => lemma_new_caches(m, kv, max_seq, a, b),
        Model::Gemma4(m) => lemma_new_caches(m.model, kv, max_seq, a, b),
    }
}

/// A step leaves the model able to take the next one on the same caches, and computing what it
/// computed before.
pub proof fn lemma_model_step_after_step(
    m: Model,
    kv: KvCache,
    r: Tensor,
    a: DeviceView,
    b: DeviceView,
)
    requires
        a.wf(),
        m.ok(a),
        m.apart(kv, a),
        advanced(a, b, r, kv),
    ensures
        m.ok(b),
        m.apart(kv, b),
        m.alike(a, b),
{
    match m {
        Model::Decoder(m) => lemma_step_after_step(m, kv, r, a, b),
        Model::Gemma4(m) => lemma_step_after_step(m.model, kv, r, a, b),
    }
}

/// Giving back the tensor of a step leaves the model able to take the next step, computing what it
/// computed before, and the caches holding what the step wrote.
pub proof fn lemma_model_step_given_back(
    m: Model,
    kv: KvCache,
    r: Tensor,
    a: DeviceView,
    b: DeviceView,
    c: DeviceView,
)
    requires
        a.wf(),
        m.ok(a),
        m.apart(kv, a),
        advanced(a, b, r, kv),
        gave_back(b, c, r),
    ensures
        m.ok(c),
        m.apart(kv, c),
        m.alike(a, c),
        terms(kv.k@, c) == terms(kv.k@, b),
        terms(kv.v@, c) == terms(kv.v@, b),
{
    match m {
        Model::Decoder(m) => lemma_step_given_back(m, kv, r, a, b, c),
        Model::Gemma4(m) => lemma_step_given_back(m.model, kv, r, a, b, c),
    }
}

/// The greedy token for a prompt of several tokens is the argmax over the very logits of the
/// prompt, whether or not the host caps them: the logits are left by a prefill on one new cache,
/// the token by one on another new cache of the same size.
pub proof fn lemma_model_prefill_token_of_logits(
    m: Model,
    ids: Seq<u32>,
    max_seq: usize,
    kv: KvCache,
    kv2: KvCache,
    logits: Tensor,
    token: Tensor,
    d: DeviceView,
    a: DeviceView,
    b: DeviceView,
    c: DeviceView,
    e: DeviceView,
)
    requires
        d.wf(),
        m.ok(d),
        m.head_dims().len() == m.layers(),
        1 < ids.len() <= usize::MAX,
        kv.allocated(m.head_dims(), max_seq, m.n_kv_heads(), d, a),
        a.wf(),
        advanced(a, b, logits, kv),
        logits.in_dev(b) == m.prefilled(a, ids, max_seq, terms(kv.k@, a), terms(kv.v@, a)).x,
        b.wf(),
        kv2.allocated(m.head_dims(), max_seq, m.n_kv_heads(), b, c),
        advanced(c, e, token, kv2),
        token.in_dev(e) == argmax_term(
            m.logits(c, ids, 0, max_seq, terms(kv2.k@, c), terms(kv2.v@, c)).x,
            m.vocab(),
            Term::Unset,
        ),
    ensures
        token.in_dev(e) == argmax_term(logits.in_dev(b), m.vocab(), Term::Unset),
{
    match m {
        Model::Decoder(m) => lemma_prefill_token_of_logits(
            m,
            m,
            ids,
            max_seq,
            kv,
            kv2,
            logits,
            token,
            d,
            a,
            b,
            c,
            e,
        ),
        Model::Gemma4(m) => lemma_prefill_token_of_logits(
            m.model,
            m.model,
            ids,
            max_seq,
            kv,
            kv2,
            logits,
            token,
            d,
            a,
            b,
            c,
            e,
        ),
    }
}

/// A model that was loaded has a head size for each of its layers and is in use on its device: new
/// caches can be allocated for it and it can run on them.
pub proof fn lemma_loaded_is_ready<S: WeightSource>(
    src: S,
    max_seq: usize,
    numbers: Numbers,
    m: Model,
    a: DeviceView,
    b: DeviceView,
)
    requires
        loads_model(src, max_seq, numbers, Ok(m), a, b),
    ensures
        m.ok(b),
        m.head_dims().len() == m.layers(),
        m.layers() == src.spec_config().n_layers,
        m.vocab() == src.spec_config().vocab,
{
}

} // verus!
