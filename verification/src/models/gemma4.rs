//! Gemma 4 dense decoder.
//!
//! Differs from the standard decoder (Qwen3/Llama/Mistral) in several Gemma-specific ways:
//! per-layer head size (local "sliding_attention" layers use `head_dim`; global "full_attention"
//! layers use `global_head_dim`), an attention scale of one, per-head Q/K-RMSNorm plus a
//! *weightless* V-RMSNorm, two RoPE instances (local full-rotary + global partial-rotary), GeGLU
//! MLP, sandwich norms around each sub-block, a per-layer residual `layer_scalar`, an embedding
//! scale of `√hidden`, and a softcap on the LM head output.

use std::sync::Arc;

use vstd::arithmetic::power2::{lemma2_to64, lemma_pow2_pos, pow2};
use vstd::prelude::*;

use crate::config::{text_view, texts_view, Config, ConfigView, Extra, ExtraView};
use crate::error::{DType, ErrorView, EyebrowseError, Result};
use crate::float::{narrow, narrowed, INFINITY};
use crate::gpu::device::{same_but, Device, DeviceView};
use crate::gpu::elements::Number;
use crate::gpu::memory::Term;
use crate::gpu::recorder::Recorder;
use crate::gpu::tensor::{lemma_numel_1, Tensor};
use crate::kernels::{mul_scalar, mul_scalar_term};
use crate::models::decoder::{
    all_there, embed_item, is_weight, lemma_attention_kept, load_failed, norm_item, residual,
    source_linear, source_norm, sum, table_complete,
};
use crate::models::loading::{
    item_list, layer_item, left, lemma_listed_kept, lemma_skip_further, load_items, made_as,
    push_item, push_layer, release, take_number, take_tensor, turned, weight, weight_term, Item, ItemView,
    Loaded, Want,
};
use crate::models::model::{advanced, kept, terms, Block, LanguageModel};
use crate::models::sequence::{gemma_row, lemma_gemma_rows, norm_rows, regular_gemma};
use crate::nn::attention::{batch, batch_of, Attended, Attention, AttentionView};
use crate::nn::kv_cache::KvCache;
use crate::nn::layers::{fits, grid, in_range, Activation, Linear, Mlp, MlpView, RmsNorm, RmsNormView};
use crate::nn::rope::{Rope, RopeView};
use crate::nn::rows::remembers;
use crate::rounding::{
    apart, exact, exact_double, finite, finite_double, lemma_narrowed, lemma_units_grow, rounds_to,
};
use crate::source::WeightSource;
use crate::text::{cat3, dec, decimal, same};

verus! {

/// Which RoPE/head-size regime a layer belongs to.
#[derive(Clone, Copy, Debug, PartialEq, Eq, Structural)]
pub enum LayerKind {
    Local,
    Global,
}

/// A Gemma 4 block. `layer_scalar` is a single-precision code.
pub struct GemmaBlock {
    pub input_ln: RmsNorm,
    pub attn: Attention,
    pub post_attn_ln: RmsNorm,
    pub pre_ff_ln: RmsNorm,
    pub post_ff_ln: RmsNorm,
    pub mlp: Mlp,
    /// Residual scale of this layer.
    pub layer_scalar: u32,
    pub kind: LayerKind,
    pub rope: Arc<Rope>,
}

/// What a [`GemmaBlock`] is: its layers with what their weights hold.
pub struct GemmaView {
    pub input_ln: RmsNormView,
    pub attn: AttentionView,
    pub hidden: usize,
    pub post_attn_ln: RmsNormView,
    pub pre_ff_ln: RmsNormView,
    pub post_ff_ln: RmsNormView,
    pub mlp: MlpView,
    pub layer_scalar: u32,
    pub kind: LayerKind,
    pub rope: RopeView,
}

impl GemmaView {
    /// The new hidden states for `x`, with what the layer's caches then hold.
    pub open spec fn of(
        self,
        x: Term,
        rows: usize,
        base_pos: usize,
        max_seq: usize,
        k: Term,
        v: Term,
    ) -> Attended {
        let h = self.input_ln.of(x, rows);
        let t = self.attn.attended(h, self.rope, rows, base_pos, max_seq, k, v);
        let x2 = sum(x, self.post_attn_ln.of(t.out, rows), rows, self.hidden);
        let m = self.mlp.of(self.pre_ff_ln.of(x2, rows), rows);
        let x3 = sum(x2, self.post_ff_ln.of(m, rows), rows, self.hidden);
        Attended {
            out: mul_scalar_term(
                x3,
                (rows * self.hidden) as usize,
                self.layer_scalar,
                Term::Unset,
            ),
            ..t
        }
    }
}

impl GemmaBlock {
    /// The block with what its weights hold on a device.
    pub open spec fn on(self, d: DeviceView) -> GemmaView {
        GemmaView {
            input_ln: self.input_ln.on(d),
            attn: self.attn.on(d),
            hidden: self.attn.hidden,
            post_attn_ln: self.post_attn_ln.on(d),
            pre_ff_ln: self.pre_ff_ln.on(d),
            post_ff_ln: self.post_ff_ln.on(d),
            mlp: self.mlp.on(d),
            layer_scalar: self.layer_scalar,
            kind: self.kind,
            rope: self.rope.on(d),
        }
    }
}

impl Block for GemmaBlock {
    open spec fn ok(&self, d: DeviceView) -> bool {
        &&& self.input_ln.ok(d)
        &&& self.attn.ok(d)
        &&& self.post_attn_ln.ok(d)
        &&& self.pre_ff_ln.ok(d)
        &&& self.post_ff_ln.ok(d)
        &&& self.mlp.ok(d)
        &&& self.rope.ok(d)
    }

    open spec fn uses(&self, id: usize) -> bool {
        ||| self.input_ln.w.buffer == id
        ||| self.attn.uses(id)
        ||| self.post_attn_ln.w.buffer == id
        ||| self.pre_ff_ln.w.buffer == id
        ||| self.post_ff_ln.w.buffer == id
        ||| self.mlp.gate.w.buffer == id
        ||| self.mlp.up.w.buffer == id
        ||| self.mlp.down.w.buffer == id
        ||| self.rope.uses(id)
    }

    open spec fn width(&self) -> usize {
        self.attn.hidden
    }

    open spec fn fits(&self, rows: usize, base_pos: usize) -> bool {
        &&& fits(rows as int, self.input_ln.dim as int)
        &&& self.attn.fits(batch(rows, base_pos) as int, self.rope.head_dim as int)
        &&& fits(rows as int, self.attn.hidden as int)
        &&& fits(rows as int, self.post_attn_ln.dim as int)
        &&& fits(rows as int, self.pre_ff_ln.dim as int)
        &&& fits(rows as int, self.post_ff_ln.dim as int)
        &&& self.mlp.fits(rows)
    }

    open spec fn term(
        &self,
        d: DeviceView,
        x: Term,
        rows: usize,
        base_pos: usize,
        max_seq: usize,
        k: Term,
        v: Term,
    ) -> Attended {
        self.on(d).of(x, rows, base_pos, max_seq, k, v)
    }

    open spec fn regular(&self, d: DeviceView, rows: int, base: int) -> bool {
        regular_gemma(self.on(d), rows, base)
    }

    open spec fn row(&self, d: DeviceView, xs: Seq<Seq<Number>>) -> Seq<Number> {
        gemma_row(self.on(d), xs)
    }

    open spec fn remembers(&self, d: DeviceView, k: Term, v: Term, xs: Seq<Seq<Number>>) -> bool {
        remembers(self.attn.on(d), self.rope.on(d), k, v, norm_rows(self.input_ln.on(d), xs))
    }

    proof fn lemma_remembers_nothing(&self, d: DeviceView, k: Term, v: Term) {
        reveal(remembers);
    }

    proof fn lemma_rows(
        &self,
        d: DeviceView,
        x: Term,
        rows: usize,
        base: usize,
        max_seq: usize,
        k: Term,
        v: Term,
        xs: Seq<Seq<Number>>,
    ) {
        lemma_gemma_rows(self.on(d), x, rows, base, max_seq, k, v, xs);
    }

    proof fn lemma_fresh(
        &self,
        d: DeviceView,
        x: Term,
        rows: usize,
        max_seq: usize,
        k: Term,
        v: Term,
        k2: Term,
        v2: Term,
    ) {
    }

    proof fn lemma_kept(&self, a: DeviceView, b: DeviceView) {
        assert forall|id: usize| #[trigger] self.attn.uses(id) implies kept(a, b, id) by {
            assert(self.uses(id));
        }
        lemma_attention_kept(self.attn, a, b);
        assert(self.uses(self.input_ln.w.buffer));
        assert(self.uses(self.post_attn_ln.w.buffer));
        assert(self.uses(self.pre_ff_ln.w.buffer));
        assert(self.uses(self.post_ff_ln.w.buffer));
        assert(self.uses(self.mlp.gate.w.buffer));
        assert(self.uses(self.mlp.up.w.buffer));
        assert(self.uses(self.mlp.down.w.buffer));
        assert(self.uses(self.rope.cos.buffer));
        assert(self.uses(self.rope.sin.buffer));
        assert(self.on(b) == self.on(a));
    }

    fn in_range(&self, rows: usize, base_pos: usize) -> (r: bool) {
        in_range(rows, self.input_ln.dim) && self.attn.in_range(
            batch_of(rows, base_pos),
            self.rope.head_dim,
        ) && in_range(rows, self.attn.hidden) && in_range(rows, self.post_attn_ln.dim) && in_range(
            rows,
            self.pre_ff_ln.dim,
        ) && in_range(rows, self.post_ff_ln.dim) && self.mlp.in_range(rows)
    }

    #[verifier::rlimit(40)]
    fn forward(
        &self,
        rec: &mut Recorder,
        x: &Tensor,
        kv: &KvCache,
        layer: usize,
        rows: usize,
        base_pos: usize,
    ) -> (r: Tensor) {
        let ghost a = rec@;
        let ghost me = self.on(a);
        let ghost xt = x.in_dev(a);
        let hidden = self.attn.hidden;
        proof {
            assert(rows * hidden <= usize::MAX) by (nonlinear_arith)
                requires
                    rows * hidden * 4 <= usize::MAX,
                    rows * hidden >= 0,
            ;
        }

        // Attention sub-block: input norm, attention, norm, residual.
        let h = self.input_ln.forward(rec, x, rows);
        let at = self.attn.forward(rec, &h, &self.rope, kv, layer, rows, base_pos);
        let ghost c = rec@;
        proof {
            assert(at.in_dev(c) == me.attn.attended(
                me.input_ln.of(xt, rows),
                me.rope,
                rows,
                base_pos,
                kv.max_seq,
                kv.k@[layer as int].in_dev(a),
                kv.v@[layer as int].in_dev(a),
            ).out);
            assert(a.live.contains(self.post_attn_ln.w.buffer));
            assert(a.live.contains(self.pre_ff_ln.w.buffer));
            assert(a.live.contains(self.post_ff_ln.w.buffer));
            assert(self.post_attn_ln.on(c) == me.post_attn_ln);
            assert(self.pre_ff_ln.on(c) == me.pre_ff_ln);
            assert(self.post_ff_ln.on(c) == me.post_ff_ln);
            assert(self.mlp.on(c) == me.mlp);
        }
        let an = self.post_attn_ln.forward(rec, &at, rows);
        let x2 = residual(rec, x, &an, rows, hidden);

        // Feed-forward sub-block: norm, MLP, norm, residual.
        let h2 = self.pre_ff_ln.forward(rec, &x2, rows);
        let m = self.mlp.forward(rec, &h2, rows);
        let mn = self.post_ff_ln.forward(rec, &m, rows);
        let x3 = residual(rec, &x2, &mn, rows, hidden);

        // Per-layer residual scale.
        let xs = grid(rec, rows, hidden);
        mul_scalar(rec, &x3, &xs, rows * hidden, self.layer_scalar);
        rec.recycle(x3);
        rec.recycle(mn);
        rec.recycle(m);
        rec.recycle(h2);
        rec.recycle(x2);
        rec.recycle(an);
        rec.recycle(at);
        rec.recycle(h);
        assert(rec@.live =~= a.live.insert(xs.buffer));
        xs
    }
}

/// Numbers that a host computes for a Gemma 4 model, as single-precision codes: the rotary tables
/// of the local and of the global layers, `max_seq` rows of half the head size each, and the
/// embedding scale `√hidden`.
#[derive(Debug)]
pub struct GemmaNumbers {
    pub local_cos: Vec<u32>,
    pub local_sin: Vec<u32>,
    pub global_cos: Vec<u32>,
    pub global_sin: Vec<u32>,
    pub embed_scale: u32,
}

/// The single-precision code of one: the attention scale, and the weights of the weightless norm.
pub const ONE: u32 = 0x3F80_0000;

/// Why a configuration is refused before any weight is loaded, if it is.
pub open spec fn early_fault(x: ExtraView) -> Option<ErrorView> {
    if x.hidden_size_per_layer_input matches Some(n) && n as usize != 0 {
        Some(
            ErrorView::UnsupportedConfig(
                "gemma4 hidden_size_per_layer_input != 0 (per-layer input embeddings)"@,
            ),
        )
    } else if x.num_experts matches Some(n) && n as usize != 0 {
        Some(ErrorView::UnsupportedConfig("gemma4 MoE (num_experts) is not supported"@))
    } else if x.enable_moe_block == Some(true) {
        Some(ErrorView::UnsupportedConfig("gemma4 MoE (enable_moe_block) is not supported"@))
    } else if x.global_head_dim is None {
        Some(ErrorView::Load("gemma4 config missing global_head_dim"@))
    } else if x.layer_types is None {
        Some(ErrorView::Load("gemma4 config missing layer_types"@))
    } else {
        None
    }
}

/// Why a configuration is refused after the weights were loaded, if it is.
pub open spec fn late_fault(x: ExtraView) -> Option<ErrorView> {
    if x.local_rope_theta is None {
        Some(
            ErrorView::Load("gemma4 missing rope_parameters.sliding_attention.rope_theta"@),
        )
    } else if x.global_rope_theta is None {
        Some(ErrorView::Load("gemma4 missing rope_parameters.full_attention.rope_theta"@))
    } else if x.partial_rotary_factor is None {
        Some(
            ErrorView::Load("gemma4 missing rope_parameters.full_attention.partial_rotary_factor"@),
        )
    } else {
        None
    }
}

/// An error that may be missing, as seen by specifications.
pub open spec fn fault_view(e: Option<EyebrowseError>) -> Option<ErrorView> {
    match e {
        Some(e) => Some(e@),
        None => None,
    }
}

/// Refuses the configurations that this dense loader does not implement, and those that lack what
/// it needs for its sizes.
pub fn check_early(x: &Extra) -> (r: Option<EyebrowseError>)
    ensures
        fault_view(r) == early_fault(x@),
{
    if let Some(n) = x.hidden_size_per_layer_input {
        if n as usize != 0 {
            return Some(
                EyebrowseError::UnsupportedConfig(
                    "gemma4 hidden_size_per_layer_input != 0 (per-layer input embeddings)".to_owned(),
                ),
            );
        }
    }
    if let Some(n) = x.num_experts {
        if n as usize != 0 {
            return Some(
                EyebrowseError::UnsupportedConfig(
                    "gemma4 MoE (num_experts) is not supported".to_owned(),
                ),
            );
        }
    }
    if let Some(true) = x.enable_moe_block {
        return Some(
            EyebrowseError::UnsupportedConfig(
                "gemma4 MoE (enable_moe_block) is not supported".to_owned(),
            ),
        );
    }
    if x.global_head_dim.is_none() {
        return Some(EyebrowseError::Load("gemma4 config missing global_head_dim".to_owned()));
    }
    if x.layer_types.is_none() {
        return Some(EyebrowseError::Load("gemma4 config missing layer_types".to_owned()));
    }
    None
}

/// Refuses the configurations that lack what the rotary tables need.
pub fn check_late(x: &Extra) -> (r: Option<EyebrowseError>)
    ensures
        fault_view(r) == late_fault(x@),
{
    if x.local_rope_theta.is_none() {
        Some(
            EyebrowseError::Load(
                "gemma4 missing rope_parameters.sliding_attention.rope_theta".to_owned(),
            ),
        )
    } else if x.global_rope_theta.is_none() {
        Some(
            EyebrowseError::Load(
                "gemma4 missing rope_parameters.full_attention.rope_theta".to_owned(),
            ),
        )
    } else if x.partial_rotary_factor.is_none() {
        Some(
            EyebrowseError::Load(
                "gemma4 missing rope_parameters.full_attention.partial_rotary_factor".to_owned(),
            ),
        )
    } else {
        None
    }
}

/// The regime of a layer: global where the configuration says "full_attention", else local.
pub open spec fn layer_kind(x: ExtraView, layer: int) -> LayerKind {
    match x.layer_types {
        Some(t) => if layer < t.len() && t[layer] == Some("full_attention"@) {
            LayerKind::Global
        } else {
            LayerKind::Local
        },
        None => LayerKind::Local,
    }
}

/// The regime of a layer.
pub fn kind_of(x: &Extra, layer: usize) -> (r: LayerKind)
    ensures
        r == layer_kind(x@, layer as int),
        x@.layer_types matches Some(t) ==> (r is Global <==> layer < t.len() && t[layer as int]
            == Some("full_attention"@)),
        x@.layer_types is None ==> r is Local,
{
    match &x.layer_types {
        Some(t) => {
            if layer < t.len() {
                assert(texts_view(t@)[layer as int] == text_view(t@[layer as int]));
                if let Some(s) = &t[layer] {
                    if same(s.as_str(), "full_attention") {
                        return LayerKind::Global;
                    }
                }
            }
            LayerKind::Local
        },
        None => LayerKind::Local,
    }
}

/// A layer attends globally if and only if its own entry says "full_attention", whatever the other
/// entries are and however many: entries of another list that agree at the layer give the same.
pub proof fn lemma_kind_of_own_entry(
    x: ExtraView,
    y: ExtraView,
    t: Seq<Option<Seq<char>>>,
    u: Seq<Option<Seq<char>>>,
    layer: int,
)
    requires
        x.layer_types == Some(t),
        y.layer_types == Some(u),
        0 <= layer < t.len(),
        0 <= layer < u.len(),
    ensures
        layer_kind(x, layer) is Global <==> t[layer] == Some("full_attention"@),
        t[layer] == u[layer] ==> layer_kind(x, layer) == layer_kind(y, layer),
{
}

/// An entry that is appended changes the regime of no earlier layer.
pub proof fn lemma_kinds_appended(
    x: ExtraView,
    t: Seq<Option<Seq<char>>>,
    more: Seq<Option<Seq<char>>>,
    layer: int,
)
    requires
        x.layer_types == Some(t),
        0 <= layer < t.len(),
    ensures
        layer_kind(x, layer) == layer_kind(
            (ExtraView { layer_types: Some(t + more), ..x }),
            layer,
        ),
{
    let y = ExtraView { layer_types: Some(t + more), ..x };
    assert((t + more)[layer] == t[layer]);
    lemma_kind_of_own_entry(x, y, t, t + more, layer);
}

/// The head size of the global layers.
pub open spec fn global_head_dim(x: ExtraView) -> usize {
    x.global_head_dim->Some_0 as usize
}

/// The head size of a layer.
pub open spec fn layer_head_dim(cfg: ConfigView, layer: int) -> usize {
    match layer_kind(cfg.settings(), layer) {
        LayerKind::Local => cfg.head_dim,
        LayerKind::Global => global_head_dim(cfg.settings()),
    }
}

/// The final-logit softcap: what the configuration says, where that is positive. The positive
/// numbers are the codes from one up to that of infinity.
pub open spec fn softcap(x: ExtraView) -> Option<u32> {
    match x.final_logit_softcapping {
        Some(c) => if 0 < narrowed(c) <= INFINITY {
            Some(narrowed(c))
        } else {
            None
        },
        None => None,
    }
}

/// A softcap is the configured number, rounded, where that is positive. There is none where the
/// configuration has none or one that is not positive, or so small that it rounds to zero.
pub proof fn lemma_softcap(x: ExtraView, c: u64)
    requires
        x.final_logit_softcapping == Some(c),
        finite_double(c),
    ensures
        softcap(x) is Some ==> exact_double(c) > 0 && rounds_to(
            exact_double(c),
            925,
            softcap(x)->Some_0,
        ),
        softcap(x) is None ==> 2 * exact_double(c) <= pow2(925),
        softcap((ExtraView { final_logit_softcapping: None, ..x })) is None,
{
    lemma_narrowed(c);
    reveal(rounds_to);
    let r = narrowed(c);
    let v = exact_double(c);
    lemma2_to64();
    lemma_pow2_pos(925);
    assert(finite(0) && exact(0) == 0);
    assert(finite(1) && exact(1) == 1);
    assert(r % 0x8000_0000 <= 0x7F80_0000);
    if 0 < r <= INFINITY {
        if v <= 0 {
            assert(v == 0);
            if finite(r) {
                lemma_units_grow(24, 0, r as nat);
                assert(exact(r) > 0);
                assert(exact(r) * pow2(925) > 0) by (nonlinear_arith)
                    requires
                        exact(r) > 0,
                        pow2(925) > 0,
                ;
            }
        }
    } else if v > 0 {
        assert(r == 0);
        assert(apart(exact(r) * pow2(925), v) <= apart(exact(1) * pow2(925), v));
    }
}

/// A configuration is loaded only where it is dense: any per-layer input, any expert and an enabled
/// expert block are refused, and so is one without head sizes or regimes.
pub proof fn lemma_refusals(x: ExtraView)
    ensures
        early_fault(x) is None <==> {
            &&& x.hidden_size_per_layer_input matches Some(n) ==> n as usize == 0
            &&& x.num_experts matches Some(n) ==> n as usize == 0
            &&& x.enable_moe_block is None || !x.enable_moe_block->Some_0
            &&& x.global_head_dim is Some
            &&& x.layer_types is Some
        },
        early_fault(x) matches Some(e) ==> (e is Load <==> {
            &&& x.hidden_size_per_layer_input matches Some(n) ==> n as usize == 0
            &&& x.num_experts matches Some(n) ==> n as usize == 0
            &&& x.enable_moe_block is None || !x.enable_moe_block->Some_0
        }),
        late_fault(x) is None <==> x.local_rope_theta is Some && x.global_rope_theta is Some
            && x.partial_rotary_factor is Some,
{
}

/// The final-logit softcap.
pub fn softcap_of(x: &Extra) -> (r: Option<u32>)
    ensures
        r == softcap(x@),
{
    match x.final_logit_softcapping {
        Some(c) => {
            let cap = narrow(c);
            if 0 < cap && cap <= INFINITY {
                Some(cap)
            } else {
                None
            }
        },
        None => None,
    }
}

/// The name of the residual scale of a layer.
pub open spec fn scalar_name(layer: nat) -> Seq<char> {
    "model.layers."@ + dec(layer) + ".layer_scalar"@
}

/// The residual scale of a layer.
pub open spec fn scalar_item(layer: nat) -> ItemView {
    ItemView { name: scalar_name(layer), want: Want::Number }
}

/// The weights of a layer, in the order in which they are loaded.
pub open spec fn gemma_layer(layer: nat) -> Seq<ItemView> {
    seq![
        layer_item(layer, "self_attn.q_proj"@, Want::Halves),
        layer_item(layer, "self_attn.k_proj"@, Want::Halves),
        layer_item(layer, "self_attn.v_proj"@, Want::Halves),
        layer_item(layer, "self_attn.o_proj"@, Want::Halves),
        layer_item(layer, "self_attn.q_norm"@, Want::Singles),
        layer_item(layer, "self_attn.k_norm"@, Want::Singles),
        layer_item(layer, "mlp.gate_proj"@, Want::Halves),
        layer_item(layer, "mlp.up_proj"@, Want::Halves),
        layer_item(layer, "mlp.down_proj"@, Want::Halves),
        layer_item(layer, "input_layernorm"@, Want::Singles),
        layer_item(layer, "post_attention_layernorm"@, Want::Singles),
        layer_item(layer, "pre_feedforward_layernorm"@, Want::Singles),
        layer_item(layer, "post_feedforward_layernorm"@, Want::Singles),
        scalar_item(layer),
    ]
}

/// The weights of the layers from `i` on.
pub open spec fn gemma_layers_from(i: nat, n: nat) -> Seq<ItemView>
    decreases n - i,
{
    if i >= n {
        seq![]
    } else {
        gemma_layer(i) + gemma_layers_from(i + 1, n)
    }
}

/// The weights of a Gemma 4 model of `n` layers, in the order in which they are loaded.
pub open spec fn gemma_list(n: nat) -> Seq<ItemView> {
    seq![embed_item()] + gemma_layers_from(0, n) + seq![norm_item()]
}

fn list_gemma_layer(items: &mut Vec<Item>, layer: usize)
    ensures
        item_list(final(items)@) == item_list(old(items)@) + gemma_layer(layer as nat),
{
    let ghost before = item_list(items@);
    push_layer(items, layer, "self_attn.q_proj", Want::Halves);
    push_layer(items, layer, "self_attn.k_proj", Want::Halves);
    push_layer(items, layer, "self_attn.v_proj", Want::Halves);
    push_layer(items, layer, "self_attn.o_proj", Want::Halves);
    push_layer(items, layer, "self_attn.q_norm", Want::Singles);
    push_layer(items, layer, "self_attn.k_norm", Want::Singles);
    push_layer(items, layer, "mlp.gate_proj", Want::Halves);
    push_layer(items, layer, "mlp.up_proj", Want::Halves);
    push_layer(items, layer, "mlp.down_proj", Want::Halves);
    push_layer(items, layer, "input_layernorm", Want::Singles);
    push_layer(items, layer, "post_attention_layernorm", Want::Singles);
    push_layer(items, layer, "pre_feedforward_layernorm", Want::Singles);
    push_layer(items, layer, "post_feedforward_layernorm", Want::Singles);
    let name = cat3("model.layers.", decimal(layer as u64).as_str(), ".layer_scalar");
    push_item(items, name.as_str(), Want::Number);
    assert(item_list(items@) =~= before + gemma_layer(layer as nat));
}

/// Lists the weights of a Gemma 4 model in the order in which they are loaded.
fn list_gemma(n: usize) -> (r: Vec<Item>)
    ensures
        item_list(r@) == gemma_list(n as nat),
{
    let mut items: Vec<Item> = Vec::new();
    assert(item_list(items@) =~= seq![]);
    push_item(&mut items, "model.embed_tokens.weight", Want::Halves);
    assert(item_list(items@) =~= seq![embed_item()]);
    let ghost all = seq![embed_item()] + gemma_layers_from(0, n as nat);
    let mut i: usize = 0;
    while i < n
        invariant
            i <= n,
            item_list(items@) + gemma_layers_from(i as nat, n as nat) == all,
        decreases n - i,
    {
        let ghost before = item_list(items@);
        list_gemma_layer(&mut items, i);
        assert(item_list(items@) + gemma_layers_from((i + 1) as nat, n as nat) =~= before
            + gemma_layers_from(i as nat, n as nat));
        i = i + 1;
    }
    assert(item_list(items@) =~= all);
    push_item(&mut items, "model.norm.weight", Want::Singles);
    assert(item_list(items@) =~= gemma_list(n as nat));
    items
}

/// The weights of the weightless norm over heads of `hd` numbers.
pub open spec fn units(hd: usize) -> Seq<u32> {
    Seq::new(hd as nat, |i: int| ONE)
}

/// A block of a source.
pub open spec fn source_gemma<S: WeightSource>(
    src: S,
    layer: nat,
    local: RopeView,
    global: RopeView,
) -> GemmaView {
    let cfg = src.spec_config();
    let eps = cfg.rms_eps;
    let hd = layer_head_dim(cfg, layer as int);
    let kind = layer_kind(cfg.settings(), layer as int);
    let q_dim = (cfg.n_heads * hd) as usize;
    let kv_dim = (cfg.n_kv_heads * hd) as usize;
    GemmaView {
        input_ln: source_norm(src, layer, "input_layernorm"@, eps, cfg.hidden),
        attn: AttentionView {
            q_proj: source_linear(src, layer, "self_attn.q_proj"@, cfg.hidden, q_dim),
            k_proj: source_linear(src, layer, "self_attn.k_proj"@, cfg.hidden, kv_dim),
            v_proj: source_linear(src, layer, "self_attn.v_proj"@, cfg.hidden, kv_dim),
            o_proj: source_linear(src, layer, "self_attn.o_proj"@, q_dim, cfg.hidden),
            q_norm: Some(source_norm(src, layer, "self_attn.q_norm"@, eps, hd)),
            k_norm: Some(source_norm(src, layer, "self_attn.k_norm"@, eps, hd)),
            v_norm: Some(RmsNormView { w: Term::Words(units(hd)), eps, dim: hd }),
            n_heads: cfg.n_heads,
            n_kv_heads: cfg.n_kv_heads,
            head_dim: hd,
            scale: ONE,
        },
        hidden: cfg.hidden,
        post_attn_ln: source_norm(src, layer, "post_attention_layernorm"@, eps, cfg.hidden),
        pre_ff_ln: source_norm(src, layer, "pre_feedforward_layernorm"@, eps, cfg.hidden),
        post_ff_ln: source_norm(src, layer, "post_feedforward_layernorm"@, eps, cfg.hidden),
        mlp: MlpView {
            gate: source_linear(src, layer, "mlp.gate_proj"@, cfg.hidden, cfg.intermediate),
            up: source_linear(src, layer, "mlp.up_proj"@, cfg.hidden, cfg.intermediate),
            down: source_linear(src, layer, "mlp.down_proj"@, cfg.intermediate, cfg.hidden),
            activation: Activation::Geglu,
        },
        layer_scalar: weight(src, scalar_item(layer))->Some_0[0],
        kind,
        rope: rope_for(kind, local, global),
    }
}

/// The rotary tables of a regime.
pub open spec fn rope_for(kind: LayerKind, local: RopeView, global: RopeView) -> RopeView {
    match kind {
        LayerKind::Local => local,
        LayerKind::Global => global,
    }
}

/// Whether the layers of a head size are in range.
pub open spec fn heads_sized(cfg: ConfigView, hd: usize, max_seq: usize) -> bool {
    &&& cfg.n_heads * hd <= usize::MAX
    &&& cfg.n_kv_heads * hd <= usize::MAX
    &&& 4 * hd <= usize::MAX
    &&& max_seq * (hd / 2) * 4 <= usize::MAX
}

/// Whether the sizes of a Gemma 4 model are in range, and its rotary tables complete.
pub open spec fn gemma_sized(cfg: ConfigView, max_seq: usize, numbers: GemmaNumbers) -> bool {
    let (local, global) = (cfg.head_dim, global_head_dim(cfg.settings()));
    &&& heads_sized(cfg, local, max_seq)
    &&& heads_sized(cfg, global, max_seq)
    &&& late_fault(cfg.settings()) is None ==> {
        &&& numbers.local_cos@.len() == max_seq * (local / 2)
        &&& numbers.local_sin@.len() == max_seq * (local / 2)
        &&& numbers.global_cos@.len() == max_seq * (global / 2)
        &&& numbers.global_sin@.len() == max_seq * (global / 2)
    }
}

fn heads_ok(cfg: &Config, hd: usize, max_seq: usize) -> (r: bool)
    ensures
        r == heads_sized(cfg@, hd, max_seq),
{
    cfg.n_heads.checked_mul(hd).is_some() && cfg.n_kv_heads.checked_mul(hd).is_some() && hd
        <= usize::MAX / 4 && in_range(max_seq, hd / 2)
}

/// Tests whether the sizes of a Gemma 4 model are in range, and its rotary tables complete.
pub fn gemma_in_range(cfg: &Config, max_seq: usize, numbers: &GemmaNumbers) -> (r: bool)
    requires
        cfg@.settings().global_head_dim is Some,
    ensures
        r == gemma_sized(cfg@, max_seq, *numbers),
{
    let x = cfg.settings();
    let local = cfg.head_dim;
    let global = match x.global_head_dim {
        Some(n) => n as usize,
        None => 0,
    };
    if !heads_ok(cfg, local, max_seq) || !heads_ok(cfg, global, max_seq) {
        return false;
    }
    check_late(&x).is_some() || (table_complete(max_seq, local, numbers.local_cos.len())
        && table_complete(max_seq, local, numbers.local_sin.len()) && table_complete(
        max_seq,
        global,
        numbers.global_cos.len(),
    ) && table_complete(max_seq, global, numbers.global_sin.len()))
}

/// The rotary tables of the local layers.
pub open spec fn local_rope(cfg: ConfigView, numbers: GemmaNumbers) -> RopeView {
    RopeView {
        cos: Term::Words(numbers.local_cos@),
        sin: Term::Words(numbers.local_sin@),
        head_dim: cfg.head_dim,
    }
}

/// The rotary tables of the global layers.
pub open spec fn global_rope(cfg: ConfigView, numbers: GemmaNumbers) -> RopeView {
    RopeView {
        cos: Term::Words(numbers.global_cos@),
        sin: Term::Words(numbers.global_sin@),
        head_dim: global_head_dim(cfg.settings()),
    }
}

/// Whether the tensors of a block have the shapes and the element types of the weights of a layer,
/// and its rotary tables those of `max_seq` positions.
#[verifier::opaque]
pub open spec fn gemma_made_as<S: WeightSource>(
    b: GemmaBlock,
    src: S,
    layer: nat,
    max_seq: usize,
) -> bool {
    let half = |t: Tensor, part: Seq<char>| made_as(t, src, layer_item(layer, part, Want::Halves));
    let single = |t: Tensor, part: Seq<char>|
        made_as(t, src, layer_item(layer, part, Want::Singles));
    let hd = layer_head_dim(src.spec_config(), layer as int);
    &&& single(b.input_ln.w, "input_layernorm"@)
    &&& half(b.attn.q_proj.w, "self_attn.q_proj"@)
    &&& half(b.attn.k_proj.w, "self_attn.k_proj"@)
    &&& half(b.attn.v_proj.w, "self_attn.v_proj"@)
    &&& half(b.attn.o_proj.w, "self_attn.o_proj"@)
    &&& b.attn.q_norm is Some && single(b.attn.q_norm->Some_0.w, "self_attn.q_norm"@)
    &&& b.attn.k_norm is Some && single(b.attn.k_norm->Some_0.w, "self_attn.k_norm"@)
    &&& b.attn.v_norm is Some
    &&& b.attn.v_norm->Some_0.w.shape@ == seq![hd]
    &&& b.attn.v_norm->Some_0.w.dtype == DType::F32
    &&& single(b.post_attn_ln.w, "post_attention_layernorm"@)
    &&& single(b.pre_ff_ln.w, "pre_feedforward_layernorm"@)
    &&& single(b.post_ff_ln.w, "post_feedforward_layernorm"@)
    &&& half(b.mlp.gate.w, "mlp.gate_proj"@)
    &&& half(b.mlp.up.w, "mlp.up_proj"@)
    &&& half(b.mlp.down.w, "mlp.down_proj"@)
    &&& b.rope.made_for(max_seq)
}

/// Whether a model is the Gemma 4 model of a source, with rotary tables up to `max_seq`.
pub open spec fn is_gemma<S: WeightSource>(
    m: LanguageModel<GemmaBlock>,
    src: S,
    max_seq: usize,
    numbers: GemmaNumbers,
    d: DeviceView,
) -> bool {
    let cfg = src.spec_config();
    &&& m.ok(d)
    &&& m.cfg@ == cfg
    &&& m.embed_w.in_dev(d) == weight_term(src, embed_item())
    &&& made_as(m.embed_w, src, embed_item())
    &&& m.lm_head_w is None
    &&& m.blocks@.len() == cfg.n_layers
    &&& forall|l: int|
        0 <= l < m.blocks@.len() ==> (#[trigger] m.blocks@[l]).on(d) == source_gemma(
            src,
            l as nat,
            local_rope(cfg, numbers),
            global_rope(cfg, numbers),
        ) && gemma_made_as(m.blocks@[l], src, l as nat, max_seq)
    &&& m.norm.on(d) == (RmsNormView {
        w: weight_term(src, norm_item()),
        eps: cfg.rms_eps,
        dim: cfg.hidden,
    })
    &&& made_as(m.norm.w, src, norm_item())
    &&& m.embed_scale == Some(numbers.embed_scale)
    &&& m.logit_softcap == softcap(cfg.settings())
    &&& m.head_dims@ == Seq::new(cfg.n_layers as nat, |l: int| layer_head_dim(cfg, l))
    &&& m.n_kv_heads == cfg.n_kv_heads
}

/// What loading a Gemma 4 model gives: the fault of the configuration, else the error of the first
/// weight that cannot be had, else what the configuration lacks for the rotary tables, else the
/// model of the source. Where there is no model, the device's buffers are as they were.
pub open spec fn loads_gemma<S: WeightSource>(
    src: S,
    max_seq: usize,
    numbers: GemmaNumbers,
    r: Result<LanguageModel<GemmaBlock>>,
    a: DeviceView,
    b: DeviceView,
) -> bool {
    let cfg = src.spec_config();
    let list = gemma_list(cfg.n_layers as nat);
    &&& same_but(a, b, Set::empty())
    &&& match r {
        Ok(m) => {
            &&& early_fault(cfg.settings()) is None
            &&& all_there(src, list)
            &&& late_fault(cfg.settings()) is None
            &&& is_gemma(m, src, max_seq, numbers, b)
            &&& a.live.subset_of(b.live)
        },
        Err(e) => {
            &&& b.live == a.live
            &&& if early_fault(cfg.settings()) is Some {
                early_fault(cfg.settings()) == Some(e@)
            } else if !all_there(src, list) {
                load_failed(src, list, e@, a, b)
            } else {
                late_fault(cfg.settings()) == Some(e@)
            }
        },
    }
}

/// The head size of each layer.
fn head_dims_of(cfg: &Config) -> (r: Vec<usize>)
    requires
        cfg@.settings().global_head_dim is Some,
    ensures
        r@ == Seq::new(cfg.n_layers as nat, |l: int| layer_head_dim(cfg@, l)),
{
    let x = cfg.settings();
    let mut dims: Vec<usize> = Vec::new();
    let global = match x.global_head_dim {
        Some(n) => n as usize,
        None => 0,
    };
    let n = cfg.n_layers;
    let mut i: usize = 0;
    while i < n
        invariant
            i <= n,
            n == cfg.n_layers,
            x@ == cfg@.settings(),
            global == global_head_dim(cfg@.settings()),
            dims@ == Seq::new(i as nat, |l: int| layer_head_dim(cfg@, l)),
        decreases n - i,
    {
        let hd = match kind_of(&x, i) {
            LayerKind::Local => cfg.head_dim,
            LayerKind::Global => global,
        };
        dims.push(hd);
        assert(dims@ =~= Seq::new((i + 1) as nat, |l: int| layer_head_dim(cfg@, l)));
        i = i + 1;
    }
    dims
}

fn unit_words(hd: usize) -> (r: Vec<u32>)
    ensures
        r@ == units(hd),
{
    let mut v: Vec<u32> = Vec::new();
    let mut i: usize = 0;
    while i < hd
        invariant
            i <= hd,
            v@ == Seq::new(i as nat, |k: int| ONE),
        decreases hd - i,
    {
        v.push(ONE);
        assert(v@ =~= Seq::new((i + 1) as nat, |k: int| ONE));
        i = i + 1;
    }
    v
}

/// Whether a tensor holds the weights of the weightless norm over heads of `hd` numbers.
pub open spec fn is_unit(t: Tensor, hd: usize, d: DeviceView) -> bool {
    &&& t.ok(d)
    &&& t.in_dev(d) == Term::Words(units(hd))
    &&& t.shape@ == seq![hd]
    &&& t.dtype == DType::F32
}

/// Whether these are the weights of weightless norms, the first one at the end.
pub open spec fn unit_stock(v: Seq<Tensor>, dims: Seq<usize>, d: DeviceView) -> bool {
    &&& v.len() <= dims.len()
    &&& forall|j: int|
        0 <= j < v.len() ==> is_unit(#[trigger] v[j], dims[dims.len() - 1 - j], d)
}

/// Uploads the weights of the weightless norm of each layer, that of the first layer last.
fn upload_units(dev: &mut Device, dims: &Vec<usize>) -> (r: Vec<Tensor>)
    requires
        old(dev)@.wf(),
        forall|l: int| 0 <= l < dims@.len() ==> 4 * #[trigger] dims@[l] <= usize::MAX,
    ensures
        final(dev)@.wf(),
        r@.len() == dims@.len(),
        unit_stock(r@, dims@, final(dev)@),
        same_but(old(dev)@, final(dev)@, Set::empty()),
        old(dev)@.live.subset_of(final(dev)@.live),
{
    let ghost a = dev@;
    let mut v: Vec<Tensor> = Vec::new();
    let mut i = dims.len();
    while i > 0
        invariant
            a == old(dev)@,
            dev@.wf(),
            i + v@.len() == dims@.len(),
            forall|l: int| 0 <= l < dims@.len() ==> 4 * #[trigger] dims@[l] <= usize::MAX,
            unit_stock(v@, dims@, dev@),
            same_but(a, dev@, Set::empty()),
            a.live.subset_of(dev@.live),
        decreases i,
    {
        let ghost b = dev@;
        let ghost before = v@;
        i = i - 1;
        let hd = dims[i];
        let ones = unit_words(hd);
        let shape: [usize; 1] = [hd];
        proof {
            lemma_numel_1(hd);
            assert(shape@ =~= seq![hd]);
        }
        let t = Tensor::from_f32(dev, &shape, ones.as_slice());
        v.push(t);
        proof {
            let c = dev@;
            assert forall|j: int| 0 <= j < v@.len() implies is_unit(
                #[trigger] v@[j],
                dims@[dims@.len() - 1 - j],
                c,
            ) by {
                if j < before.len() {
                    assert(v@[j] == before[j]);
                    assert(before[j].ok(b));
                }
            }
            assert forall|id: usize|
                #![trigger c.holds(id)]
                #![trigger a.holds(id)]
                a.live.contains(id) implies c.holds(id) == a.holds(id) by {
                assert(b.live.contains(id));
                assert(b.holds(id) == a.holds(id));
            }
        }
    }
    v
}

/// The weights of a layer.
pub(crate) struct GemmaTensors {
    pub q_proj: Tensor,
    pub k_proj: Tensor,
    pub v_proj: Tensor,
    pub o_proj: Tensor,
    pub q_norm: Tensor,
    pub k_norm: Tensor,
    pub gate_proj: Tensor,
    pub up_proj: Tensor,
    pub down_proj: Tensor,
    pub input_ln: Tensor,
    pub post_attn_ln: Tensor,
    pub pre_ff_ln: Tensor,
    pub post_ff_ln: Tensor,
    pub layer_scalar: u32,
}

impl GemmaTensors {
    /// Whether these are the weights of a layer of a source.
    pub(crate) open spec fn of<S: WeightSource>(self, src: S, layer: nat, d: DeviceView) -> bool {
        &&& is_weight(self.q_proj, src, gemma_layer(layer)[0], d)
        &&& is_weight(self.k_proj, src, gemma_layer(layer)[1], d)
        &&& is_weight(self.v_proj, src, gemma_layer(layer)[2], d)
        &&& is_weight(self.o_proj, src, gemma_layer(layer)[3], d)
        &&& is_weight(self.q_norm, src, gemma_layer(layer)[4], d)
        &&& is_weight(self.k_norm, src, gemma_layer(layer)[5], d)
        &&& is_weight(self.gate_proj, src, gemma_layer(layer)[6], d)
        &&& is_weight(self.up_proj, src, gemma_layer(layer)[7], d)
        &&& is_weight(self.down_proj, src, gemma_layer(layer)[8], d)
        &&& is_weight(self.input_ln, src, gemma_layer(layer)[9], d)
        &&& is_weight(self.post_attn_ln, src, gemma_layer(layer)[10], d)
        &&& is_weight(self.pre_ff_ln, src, gemma_layer(layer)[11], d)
        &&& is_weight(self.post_ff_ln, src, gemma_layer(layer)[12], d)
        &&& self.layer_scalar == weight(src, scalar_item(layer))->Some_0[0]
    }
}

/// Takes the weights of a layer from loaded weights.
#[verifier::rlimit(40)]
fn take_gemma<S: WeightSource>(
    stock: &mut Vec<Loaded>,
    Ghost(src): Ghost<S>,
    Ghost(list): Ghost<Seq<ItemView>>,
    Ghost(p): Ghost<int>,
    Ghost(layer): Ghost<nat>,
    Ghost(d): Ghost<DeviceView>,
) -> (r: GemmaTensors)
    requires
        0 <= p,
        p + gemma_layer(layer).len() <= list.len(),
        forall|j: int|
            0 <= j < gemma_layer(layer).len() ==> list[p + j] == #[trigger] gemma_layer(layer)[j],
        left(src, list.skip(p), old(stock)@, d),
    ensures
        r.of(src, layer, d),
        left(src, list.skip(p + gemma_layer(layer).len()), final(stock)@, d),
{
    let ghost l = gemma_layer(layer);
    proof {
        assert(list[p + 0] == l[0]);
        assert(list[p + 1] == l[1]);
        assert(list[p + 2] == l[2]);
        assert(list[p + 3] == l[3]);
        assert(list[p + 4] == l[4]);
        assert(list[p + 5] == l[5]);
        assert(list[p + 6] == l[6]);
        assert(list[p + 7] == l[7]);
        assert(list[p + 8] == l[8]);
        assert(list[p + 9] == l[9]);
        assert(list[p + 10] == l[10]);
        assert(list[p + 11] == l[11]);
        assert(list[p + 12] == l[12]);
        assert(list[p + 13] == l[13]);
    }
    let q_proj = take_tensor::<S>(stock, Ghost(src), Ghost(list), Ghost(p + 0), Ghost(d));
    let k_proj = take_tensor::<S>(stock, Ghost(src), Ghost(list), Ghost(p + 1), Ghost(d));
    let v_proj = take_tensor::<S>(stock, Ghost(src), Ghost(list), Ghost(p + 2), Ghost(d));
    let o_proj = take_tensor::<S>(stock, Ghost(src), Ghost(list), Ghost(p + 3), Ghost(d));
    let q_norm = take_tensor::<S>(stock, Ghost(src), Ghost(list), Ghost(p + 4), Ghost(d));
    let k_norm = take_tensor::<S>(stock, Ghost(src), Ghost(list), Ghost(p + 5), Ghost(d));
    let gate_proj = take_tensor::<S>(stock, Ghost(src), Ghost(list), Ghost(p + 6), Ghost(d));
    let up_proj = take_tensor::<S>(stock, Ghost(src), Ghost(list), Ghost(p + 7), Ghost(d));
    let down_proj = take_tensor::<S>(stock, Ghost(src), Ghost(list), Ghost(p + 8), Ghost(d));
    let input_ln = take_tensor::<S>(stock, Ghost(src), Ghost(list), Ghost(p + 9), Ghost(d));
    let post_attn_ln = take_tensor::<S>(stock, Ghost(src), Ghost(list), Ghost(p + 10), Ghost(d));
    let pre_ff_ln = take_tensor::<S>(stock, Ghost(src), Ghost(list), Ghost(p + 11), Ghost(d));
    let post_ff_ln = take_tensor::<S>(stock, Ghost(src), Ghost(list), Ghost(p + 12), Ghost(d));
    let layer_scalar = take_number::<S>(stock, Ghost(src), Ghost(list), Ghost(p + 13), Ghost(d));
    GemmaTensors {
        q_proj,
        k_proj,
        v_proj,
        o_proj,
        q_norm,
        k_norm,
        gate_proj,
        up_proj,
        down_proj,
        input_ln,
        post_attn_ln,
        pre_ff_ln,
        post_ff_ln,
        layer_scalar,
    }
}

/// Puts the weights of a layer together.
fn assemble_gemma<S: WeightSource>(
    t: GemmaTensors,
    ones: Tensor,
    cfg: &Config,
    layer: usize,
    hd: usize,
    local: &Arc<Rope>,
    global: &Arc<Rope>,
    Ghost(src): Ghost<S>,
    Ghost(d): Ghost<DeviceView>,
) -> (r: GemmaBlock)
    requires
        t.of(src, layer as nat, d),
        is_unit(ones, hd, d),
        cfg@ == src.spec_config(),
        hd == layer_head_dim(cfg@, layer as int),
        cfg.n_heads * hd <= usize::MAX,
        cfg.n_kv_heads * hd <= usize::MAX,
        local.ok(d),
        global.ok(d),
        local.made_for(global.max_seq),
        global.made_for(global.max_seq),
    ensures
        r.ok(d),
        r.on(d) == source_gemma(src, layer as nat, local.on(d), global.on(d)),
        gemma_made_as(r, src, layer as nat, global.max_seq),
{
    proof {
        reveal(gemma_made_as);
    }
    let (hidden, inter, eps) = (cfg.hidden, cfg.intermediate, cfg.rms_eps);
    let kind = kind_of(&cfg.settings(), layer);
    let q_dim = cfg.n_heads * hd;
    let kv_dim = cfg.n_kv_heads * hd;
    let rope = match kind {
        LayerKind::Local => local.clone(),
        LayerKind::Global => global.clone(),
    };
    GemmaBlock {
        input_ln: RmsNorm::new(t.input_ln, eps, hidden),
        attn: Attention {
            q_proj: Linear::new(t.q_proj, hidden, q_dim),
            k_proj: Linear::new(t.k_proj, hidden, kv_dim),
            v_proj: Linear::new(t.v_proj, hidden, kv_dim),
            o_proj: Linear::new(t.o_proj, q_dim, hidden),
            q_norm: Some(RmsNorm::new(t.q_norm, eps, hd)),
            k_norm: Some(RmsNorm::new(t.k_norm, eps, hd)),
            v_norm: Some(RmsNorm::new(ones, eps, hd)),
            n_heads: cfg.n_heads,
            n_kv_heads: cfg.n_kv_heads,
            head_dim: hd,
            hidden,
            scale: ONE,
        },
        post_attn_ln: RmsNorm::new(t.post_attn_ln, eps, hidden),
        pre_ff_ln: RmsNorm::new(t.pre_ff_ln, eps, hidden),
        post_ff_ln: RmsNorm::new(t.post_ff_ln, eps, hidden),
        mlp: Mlp::geglu(
            Linear::new(t.gate_proj, hidden, inter),
            Linear::new(t.up_proj, hidden, inter),
            Linear::new(t.down_proj, inter, hidden),
        ),
        layer_scalar: t.layer_scalar,
        kind,
        rope,
    }
}

/// Takes the blocks of a model from loaded weights.
#[verifier::rlimit(40)]
fn take_blocks<S: WeightSource>(
    stock: &mut Vec<Loaded>,
    ones: Vec<Tensor>,
    cfg: &Config,
    dims: &Vec<usize>,
    local: &Arc<Rope>,
    global: &Arc<Rope>,
    Ghost(src): Ghost<S>,
    Ghost(list): Ghost<Seq<ItemView>>,
    Ghost(d): Ghost<DeviceView>,
) -> (r: Vec<GemmaBlock>)
    requires
        cfg@ == src.spec_config(),
        dims@ == Seq::new(cfg.n_layers as nat, |l: int| layer_head_dim(cfg@, l)),
        forall|l: int|
            0 <= l < dims@.len() ==> cfg.n_heads * #[trigger] dims@[l] <= usize::MAX
                && cfg.n_kv_heads * dims@[l] <= usize::MAX,
        ones@.len() == dims@.len(),
        unit_stock(ones@, dims@, d),
        local.ok(d),
        global.ok(d),
        local.made_for(global.max_seq),
        global.made_for(global.max_seq),
        list == gemma_list(cfg.n_layers as nat),
        left(src, list.skip(1), old(stock)@, d),
    ensures
        r@.len() == cfg.n_layers,
        forall|l: int|
            0 <= l < r@.len() ==> (#[trigger] r@[l]).ok(d) && r@[l].on(d) == source_gemma(
                src,
                l as nat,
                local.on(d),
                global.on(d),
            ) && gemma_made_as(r@[l], src, l as nat, global.max_seq),
        list[list.len() - 1] == norm_item(),
        left(src, list.skip(list.len() - 1), final(stock)@, d),
{
    let n = cfg.n_layers;
    let ghost (lo, gl) = (local.on(d), global.on(d));
    let mut ones = ones;
    let mut blocks: Vec<GemmaBlock> = Vec::new();
    let ghost mut p: int = 1;
    let mut i: usize = 0;
    assert(list.skip(1) =~= gemma_layers_from(0, n as nat) + seq![norm_item()]);
    while i < n
        invariant
            i <= n,
            n == cfg.n_layers,
            cfg@ == src.spec_config(),
            dims@ == Seq::new(cfg.n_layers as nat, |l: int| layer_head_dim(cfg@, l)),
            forall|l: int|
                0 <= l < dims@.len() ==> cfg.n_heads * #[trigger] dims@[l] <= usize::MAX
                    && cfg.n_kv_heads * dims@[l] <= usize::MAX,
            ones@.len() == n - i,
            unit_stock(ones@, dims@, d),
            local.ok(d),
            global.ok(d),
            local.made_for(global.max_seq),
            global.made_for(global.max_seq),
            local.on(d) == lo,
            global.on(d) == gl,
            0 <= p <= list.len(),
            list.skip(p) == gemma_layers_from(i as nat, n as nat) + seq![norm_item()],
            left(src, list.skip(p), stock@, d),
            blocks@.len() == i,
            forall|l: int|
                0 <= l < i ==> (#[trigger] blocks@[l]).ok(d) && blocks@[l].on(d) == source_gemma(
                    src,
                    l as nat,
                    lo,
                    gl,
                ) && gemma_made_as(blocks@[l], src, l as nat, global.max_seq),
        decreases n - i,
    {
        let ghost l = gemma_layer(i as nat);
        let ghost rest = gemma_layers_from((i + 1) as nat, n as nat) + seq![norm_item()];
        proof {
            assert(list.skip(p) =~= l + rest);
            lemma_skip_further(list, p, l, rest);
            assert(dims@[i as int] == layer_head_dim(cfg@, i as int));
        }
        let t = take_gemma::<S>(stock, Ghost(src), Ghost(list), Ghost(p), Ghost(i as nat), Ghost(d));
        let ghost before = ones@;
        let one = match ones.pop() {
            Some(t) => t,
            None => Tensor { buffer: 0, shape: Vec::new(), dtype: DType::F32 },
        };
        proof {
            assert(before[before.len() - 1].ok(d));
            assert forall|j: int| 0 <= j < ones@.len() implies is_unit(
                #[trigger] ones@[j],
                dims@[dims@.len() - 1 - j],
                d,
            ) by {
                assert(ones@[j] == before[j]);
            }
        }
        let block = assemble_gemma::<S>(
            t,
            one,
            cfg,
            i,
            dims[i],
            local,
            global,
            Ghost(src),
            Ghost(d),
        );
        blocks.push(block);
        proof {
            p = p + l.len();
        }
        i = i + 1;
    }
    proof {
        assert(list.skip(p).len() == 1);
        assert(list.skip(p)[0] == list[p]);
    }
    blocks
}

/// Loads a Gemma 4 model, with both rotary tables up to `max_seq`.
#[verifier::rlimit(40)]
pub fn load<S: WeightSource>(
    dev: &mut Device,
    src: &S,
    max_seq: usize,
    numbers: GemmaNumbers,
) -> (r: Result<LanguageModel<GemmaBlock>>)
    requires
        old(dev)@.wf(),
        early_fault(src.spec_config().settings()) is None ==> gemma_sized(
            src.spec_config(),
            max_seq,
            numbers,
        ),
    ensures
        final(dev)@.wf(),
        loads_gemma(*src, max_seq, numbers, r, old(dev)@, final(dev)@),
{
    let ghost a = dev@;
    let cfg = src.config().clone();
    let x = cfg.settings();
    if let Some(e) = check_early(&x) {
        return Err(e);
    }
    let dims = head_dims_of(&cfg);
    let items = list_gemma(cfg.n_layers);
    let ghost list = item_list(items@);
    let v = match load_items(dev, src, &items) {
        Ok(v) => v,
        Err(e) => return Err(e),
    };
    if let Some(e) = check_late(&x) {
        release::<S>(dev, v, Ghost(*src), Ghost(list), Ghost(a));
        return Err(e);
    }
    let ghost b = dev@;
    let global_hd = match x.global_head_dim {
        Some(n) => n as usize,
        None => 0,
    };
    let rope_local = Rope::build(
        dev,
        max_seq,
        cfg.head_dim,
        numbers.local_cos.as_slice(),
        numbers.local_sin.as_slice(),
    );
    let ghost c1 = dev@;
    let rope_global = Rope::build(
        dev,
        max_seq,
        global_hd,
        numbers.global_cos.as_slice(),
        numbers.global_sin.as_slice(),
    );
    let ghost c2 = dev@;
    let ones = upload_units(dev, &dims);
    let ghost d = dev@;
    let local = Arc::new(rope_local);
    let global = Arc::new(rope_global);
    proof {
        lemma_same_but_joins(a, b, c1);
        lemma_same_but_joins(b, c1, c2);
        lemma_same_but_joins(b, c2, d);
        lemma_same_but_joins(a, b, d);
        lemma_listed_kept(*src, list, v@, b, d);
        assert(list.skip(0) =~= list);
        assert(list[0] == embed_item());
        assert forall|l: int| 0 <= l < dims@.len() implies cfg.n_heads * #[trigger] dims@[l]
            <= usize::MAX && cfg.n_kv_heads * dims@[l] <= usize::MAX by {
            assert(dims@[l] == layer_head_dim(cfg@, l));
        }
        assert(c1.live.contains(local.cos.buffer) && c1.live.contains(local.sin.buffer));
        assert(local.on(d) == local_rope(cfg@, numbers));
        assert(global.on(d) == global_rope(cfg@, numbers));
    }
    let mut stock = turned::<S>(v, Ghost(*src), Ghost(list), Ghost(d));
    let embed_w = take_tensor::<S>(&mut stock, Ghost(*src), Ghost(list), Ghost(0int), Ghost(d));
    let blocks = take_blocks::<S>(
        &mut stock,
        ones,
        &cfg,
        &dims,
        &local,
        &global,
        Ghost(*src),
        Ghost(list),
        Ghost(d),
    );
    let norm_w = take_tensor::<S>(
        &mut stock,
        Ghost(*src),
        Ghost(list),
        Ghost(list.len() - 1),
        Ghost(d),
    );
    let norm = RmsNorm::new(norm_w, cfg.rms_eps, cfg.hidden);
    let n_kv_heads = cfg.n_kv_heads;
    let logit_softcap = softcap_of(&x);
    let m = LanguageModel {
        embed_w,
        lm_head_w: None,
        blocks,
        norm,
        embed_scale: Some(numbers.embed_scale),
        logit_softcap,
        head_dims: dims,
        n_kv_heads,
        cfg,
    };
    proof {
        assert forall|l: int, id: usize|
            0 <= l < m.blocks@.len() && #[trigger] m.blocks@[l].uses(id) implies d.live.contains(
            id,
        ) by {
            assert(m.blocks@[l].ok(d));
        }
    }
    Ok(m)
}

proof fn lemma_same_but_joins(a: DeviceView, b: DeviceView, c: DeviceView)
    requires
        same_but(a, b, Set::empty()),
        same_but(b, c, Set::empty()),
        forall|id: usize| #[trigger] a.live.contains(id) ==> b.live.contains(id),
    ensures
        same_but(a, c, Set::empty()),
{
    assert forall|id: usize|
        #![trigger c.holds(id)]
        #![trigger a.holds(id)]
        a.live.contains(id) implies c.holds(id) == a.holds(id) by {
        assert(b.holds(id) == a.holds(id));
    }
}

/// A loaded Gemma 4 model with a forward pass of its own: a prefill always slices the last hidden
/// row out before the (tied) LM head, a decode step never does.
pub struct Gemma4 {
    pub model: LanguageModel<GemmaBlock>,
}

/// The model in what a loader gave.
pub open spec fn inner(r: Result<Gemma4>) -> Result<LanguageModel<GemmaBlock>> {
    match r {
        Ok(m) => Ok(m.model),
        Err(e) => Err(e),
    }
}

impl Gemma4 {
    /// Loads all weights from a source, with both rotary tables up to `max_seq`.
    pub fn load<S: WeightSource>(
        dev: &mut Device,
        src: &S,
        max_seq: usize,
        numbers: GemmaNumbers,
    ) -> (r: Result<Self>)
        requires
            old(dev)@.wf(),
            early_fault(src.spec_config().settings()) is None ==> gemma_sized(
                src.spec_config(),
                max_seq,
                numbers,
            ),
        ensures
            final(dev)@.wf(),
            loads_gemma(*src, max_seq, numbers, inner(r), old(dev)@, final(dev)@),
    {
        match crate::models::gemma4::load(dev, src, max_seq, numbers) {
            Ok(model) => Ok(Gemma4 { model }),
            Err(e) => Err(e),
        }
    }

    /// Builds a KV cache sized for this model and the given max sequence length, honoring the
    /// per-layer head size (global layers are wider than local ones).
    pub fn new_kv_cache(&self, dev: &mut Device, max_seq: usize) -> (r: KvCache)
        requires
            old(dev)@.wf(),
            self.model.cache_fits(max_seq),
        ensures
            final(dev)@.wf(),
            r.allocated(
                self.model.head_dims@,
                max_seq,
                self.model.n_kv_heads,
                old(dev)@,
                final(dev)@,
            ),
    {
        self.model.new_kv_cache(dev, max_seq)
    }

    /// Records a prefill: embeds `ids`, runs all blocks, and returns the tensor of the logits
    /// (`[1, vocab]`), before any softcap, for the LAST position.
    pub fn forward_prefill(&self, rec: &mut Recorder, ids: &[u32], kv: &KvCache) -> (r: Tensor)
        requires
            old(rec).wf(),
            self.model.ok(old(rec)@),
            self.model.apart(*kv, old(rec)@),
            ids@.len() > 0,
            self.model.fits(ids@.len() as usize, 0),
        ensures
            final(rec).wf(),
            advanced(old(rec)@, final(rec)@, r, *kv),
            r.shape@ == seq![1usize, self.model.cfg.vocab],
            r.dtype == DType::F32,
            ({
                let f = self.model.sliced_logits(
                    old(rec)@,
                    ids@,
                    0,
                    kv.max_seq,
                    terms(kv.k@, old(rec)@),
                    terms(kv.v@, old(rec)@),
                    true,
                );
                &&& r.in_dev(final(rec)@) == f.x
                &&& terms(kv.k@, final(rec)@) == f.k
                &&& terms(kv.v@, final(rec)@) == f.v
            }),
    {
        self.model.record_step(rec, ids, kv, 0, true)
    }

    /// Records the decoding of one `token` at absolute position `pos`, returning the tensor of the
    /// logits (`[1, vocab]`), before any softcap.
    pub fn forward_decode(&self, rec: &mut Recorder, token: u32, pos: usize, kv: &KvCache) -> (r:
        Tensor)
        requires
            old(rec).wf(),
            self.model.ok(old(rec)@),
            self.model.apart(*kv, old(rec)@),
            self.model.fits(1, pos),
        ensures
            final(rec).wf(),
            advanced(old(rec)@, final(rec)@, r, *kv),
            r.shape@ == seq![1usize, self.model.cfg.vocab],
            r.dtype == DType::F32,
            ({
                let f = self.model.sliced_logits(
                    old(rec)@,
                    seq![token],
                    pos,
                    kv.max_seq,
                    terms(kv.k@, old(rec)@),
                    terms(kv.v@, old(rec)@),
                    false,
                );
                &&& r.in_dev(final(rec)@) == f.x
                &&& terms(kv.k@, final(rec)@) == f.k
                &&& terms(kv.v@, final(rec)@) == f.v
            }),
    {
        let ids: [u32; 1] = [token];
        assert(ids@ =~= seq![token]);
        self.model.record_step(rec, &ids, kv, pos, false)
    }
}

/// What the regime of a layer decides in a loaded model: a global layer has heads of the global
/// size, turns them by the global tables and keeps them in a cache of that size; a local layer goes
/// by the local size and tables. Neighbours do not matter.
pub proof fn lemma_regimes<S: WeightSource>(
    m: LanguageModel<GemmaBlock>,
    src: S,
    max_seq: usize,
    numbers: GemmaNumbers,
    d: DeviceView,
    types: Seq<Option<Seq<char>>>,
    l: int,
)
    requires
        is_gemma(m, src, max_seq, numbers, d),
        src.spec_config().settings().layer_types == Some(types),
        0 <= l < src.spec_config().n_layers,
        l < types.len(),
    ensures
        ({
            let cfg = src.spec_config();
            let b = m.blocks@[l];
            let full = types[l] == Some("full_attention"@);
            let hd = if full {
                cfg.settings().global_head_dim->Some_0 as usize
            } else {
                cfg.head_dim
            };
            &&& b.kind is Global <==> full
            &&& b.attn.head_dim == hd
            &&& m.head_dims@[l] == hd
            &&& b.attn.q_proj.out_f == (cfg.n_heads * hd) as usize
            &&& b.attn.k_proj.out_f == (cfg.n_kv_heads * hd) as usize
            &&& b.attn.v_proj.out_f == (cfg.n_kv_heads * hd) as usize
            &&& b.rope.head_dim == hd
            &&& b.rope.cos.in_dev(d) == Term::Words(
                if full {
                    numbers.global_cos@
                } else {
                    numbers.local_cos@
                },
            )
            &&& b.rope.sin.in_dev(d) == Term::Words(
                if full {
                    numbers.global_sin@
                } else {
                    numbers.local_sin@
                },
            )
        }),
{
    let b = m.blocks@[l];
    assert(b.on(d).kind == b.kind);
    assert(b.on(d).attn.head_dim == b.attn.head_dim);
    assert(b.on(d).attn.q_proj.out_f == b.attn.q_proj.out_f);
    assert(b.on(d).attn.k_proj.out_f == b.attn.k_proj.out_f);
    assert(b.on(d).attn.v_proj.out_f == b.attn.v_proj.out_f);
    assert(b.on(d).rope.head_dim == b.rope.head_dim);
    assert(b.on(d).rope.cos == b.rope.cos.in_dev(d));
    assert(b.on(d).rope.sin == b.rope.sin.in_dev(d));
}

} // verus!
