//! The standard decoder block (Qwen3 / Llama / Mistral) and its loader.
//!
//! Per block: RMSNorm, attention (GQA, optional QK-norm, RoPE), residual, RMSNorm, SwiGLU MLP,
//! residual. The per-architecture modules call [`load`] and differ only in whether per-head
//! QK-RMSNorm is attached. The driver in [`crate::models::model`] runs the resulting model.

use std::sync::Arc;

use vstd::prelude::*;

use crate::config::{Config, ConfigView};
use crate::error::{ErrorView, Result};
use crate::gpu::device::{same_but, Device, DeviceView};
use crate::gpu::kernel::add_term;
use crate::gpu::elements::Number;
use crate::gpu::memory::Term;
use crate::gpu::recorder::Recorder;
use crate::gpu::tensor::{lemma_numel_2, Tensor};
use crate::models::loading::{
    first_gap, item_list, layer_item, left, lemma_listed_kept, lemma_skip_further, load_items,
    made_as, push_item, push_layer, take_tensor, turned, weight, weight_refusal, weight_term, Item,
    ItemView, Loaded, Want,
};
use crate::models::model::{embedded, kept, through, Block, Flow, LanguageModel};
use crate::models::sequence::{lemma_standard_rows, norm_rows, regular_standard, standard_row};
use crate::nn::attention::{batch, batch_of, Attended, Attention, AttentionView};
use crate::nn::kv_cache::KvCache;
use crate::nn::layers::{
    fits, grid, in_range, produced, Activation, Linear, LinearView, Mlp, MlpView, RmsNorm,
    RmsNormView,
};
use crate::nn::rope::{Rope, RopeView};
use crate::nn::rows::remembers;
use crate::source::{has_name, WeightSource};

verus! {

/// Per-architecture knobs for [`load`].
#[derive(Clone, Copy, Debug, PartialEq, Eq, Structural)]
pub struct DecoderOpts {
    /// Whether the architecture has per-head QK-RMSNorm (Qwen3 yes; Llama/Mistral no).
    pub has_qk_norm: bool,
}

/// A standard pre-norm transformer block with a SwiGLU MLP and a shared RoPE table.
pub struct StandardBlock {
    pub ln1: RmsNorm,
    pub attn: Attention,
    pub ln2: RmsNorm,
    pub mlp: Mlp,
    pub rope: Arc<Rope>,
}

/// What a [`StandardBlock`] is: its layers with what their weights hold.
pub struct StandardView {
    pub ln1: RmsNormView,
    pub attn: AttentionView,
    pub hidden: usize,
    pub ln2: RmsNormView,
    pub mlp: MlpView,
    pub rope: RopeView,
}

/// The sum of two tensors of `rows` rows of `cols` numbers.
pub open spec fn sum(a: Term, b: Term, rows: usize, cols: usize) -> Term {
    add_term(a, b, (rows * cols) as u32, Term::Unset)
}

impl StandardView {
    /// The new hidden states for `x`, with what the layer's caches then hold.
    pub open spec fn of(
        self,
        x: Term,
        rows: usize,
        base_pos: usize,
        max_seq: usize,
        k: Term,
        v: Term,
    ) -> Attended {
        let h = self.ln1.of(x, rows);
        let t = self.attn.attended(h, self.rope, rows, base_pos, max_seq, k, v);
        let x2 = sum(x, t.out, rows, self.hidden);
        let m = self.mlp.of(self.ln2.of(x2, rows), rows);
        Attended { out: sum(x2, m, rows, self.hidden), ..t }
    }
}

impl StandardBlock {
    /// The block with what its weights hold on a device.
    pub open spec fn on(self, d: DeviceView) -> StandardView {
        StandardView {
            ln1: self.ln1.on(d),
            attn: self.attn.on(d),
            hidden: self.attn.hidden,
            ln2: self.ln2.on(d),
            mlp: self.mlp.on(d),
            rope: self.rope.on(d),
        }
    }
}

/// Adds two tensors into a new one of `rows` rows of `cols` numbers.
pub(crate) fn residual(rec: &mut Recorder, a: &Tensor, b: &Tensor, rows: usize, cols: usize) -> (r:
    Tensor)
    requires
        old(rec).wf(),
        a.ok(old(rec)@),
        b.ok(old(rec)@),
        fits(rows as int, cols as int),
    ensures
        final(rec).wf(),
        produced(
            old(rec)@,
            final(rec)@,
            r,
            seq![rows, cols],
            sum(a.in_dev(old(rec)@), b.in_dev(old(rec)@), rows, cols),
        ),
{
    let out = grid(rec, rows, cols);
    proof {
        lemma_numel_2(rows, cols);
    }
    crate::gpu::kernel::add(rec, a, b, &out);
    out
}

impl Block for StandardBlock {
    open spec fn ok(&self, d: DeviceView) -> bool {
        &&& self.ln1.ok(d)
        &&& self.attn.ok(d)
        &&& self.ln2.ok(d)
        &&& self.mlp.ok(d)
        &&& self.rope.ok(d)
    }

    open spec fn uses(&self, id: usize) -> bool {
        ||| self.ln1.w.buffer == id
        ||| self.attn.uses(id)
        ||| self.ln2.w.buffer == id
        ||| self.mlp.gate.w.buffer == id
        ||| self.mlp.up.w.buffer == id
        ||| self.mlp.down.w.buffer == id
        ||| self.rope.uses(id)
    }

    open spec fn width(&self) -> usize {
        self.attn.hidden
    }

    open spec fn fits(&self, rows: usize, base_pos: usize) -> bool {
        &&& fits(rows as int, self.ln1.dim as int)
        &&& self.attn.fits(batch(rows, base_pos) as int, self.rope.head_dim as int)
        &&& fits(rows as int, self.attn.hidden as int)
        &&& fits(rows as int, self.ln2.dim as int)
        &&& self.mlp.fits(rows)
    }

    open spec fn term(
        &self,
        d: DeviceView,
        x: Term,
        rows: usize,
        base_pos: usize,
        max_seq: usize,
        k: Term,
        v: Term,
    ) -> Attended {
        self.on(d).of(x, rows, base_pos, max_seq, k, v)
    }

    open spec fn regular(&self, d: DeviceView, rows: int, base: int) -> bool {
        regular_standard(self.on(d), rows, base)
    }

    open spec fn row(&self, d: DeviceView, xs: Seq<Seq<Number>>) -> Seq<Number> {
        standard_row(self.on(d), xs)
    }

    open spec fn remembers(&self, d: DeviceView, k: Term, v: Term, xs: Seq<Seq<Number>>) -> bool {
        remembers(self.attn.on(d), self.rope.on(d), k, v, norm_rows(self.ln1.on(d), xs))
    }

    proof fn lemma_remembers_nothing(&self, d: DeviceView, k: Term, v: Term) {
        reveal(remembers);
    }

    proof fn lemma_rows(
        &self,
        d: DeviceView,
        x: Term,
        rows: usize,
        base: usize,
        max_seq: usize,
        k: Term,
        v: Term,
        xs: Seq<Seq<Number>>,
    ) {
        lemma_standard_rows(self.on(d), x, rows, base, max_seq, k, v, xs);
    }

    proof fn lemma_fresh(
        &self,
        d: DeviceView,
        x: Term,
        rows: usize,
        max_seq: usize,
        k: Term,
        v: Term,
        k2: Term,
        v2: Term,
    ) {
    }

    proof fn lemma_kept(&self, a: DeviceView, b: DeviceView) {
        assert forall|id: usize| #[trigger] self.attn.uses(id) implies kept(a, b, id) by {
            assert(self.uses(id));
        }
        lemma_attention_kept(self.attn, a, b);
        assert(self.uses(self.ln1.w.buffer));
        assert(self.uses(self.ln2.w.buffer));
        assert(self.uses(self.mlp.gate.w.buffer));
        assert(self.uses(self.mlp.up.w.buffer));
        assert(self.uses(self.mlp.down.w.buffer));
        assert(self.uses(self.rope.cos.buffer));
        assert(self.uses(self.rope.sin.buffer));
        assert(self.on(b) == self.on(a));
    }

    fn in_range(&self, rows: usize, base_pos: usize) -> (r: bool) {
        in_range(rows, self.ln1.dim) && self.attn.in_range(
            batch_of(rows, base_pos),
            self.rope.head_dim,
        ) && in_range(rows, self.attn.hidden) && in_range(rows, self.ln2.dim) && self.mlp.in_range(
            rows,
        )
    }

    fn forward(
        &self,
        rec: &mut Recorder,
        x: &Tensor,
        kv: &KvCache,
        layer: usize,
        rows: usize,
        base_pos: usize,
    ) -> (r: Tensor) {
        let ghost a = rec@;
        let ghost me = self.on(a);
        let hidden = self.attn.hidden;
        let h = self.ln1.forward(rec, x, rows);
        let ghost b = rec@;
        let at = self.attn.forward(rec, &h, &self.rope, kv, layer, rows, base_pos);
        let ghost c = rec@;
        proof {
            lemma_attention_same(self.attn, a, b);
            assert(self.attn.on(b) == self.attn.on(a));
            assert(self.rope.on(b) == self.rope.on(a));
            assert(a.live.contains(self.ln2.w.buffer));
        }
        let x2 = residual(rec, x, &at, rows, hidden);
        let h2 = self.ln2.forward(rec, &x2, rows);
        let m = self.mlp.forward(rec, &h2, rows);
        let x3 = residual(rec, &x2, &m, rows, hidden);
        rec.recycle(m);
        rec.recycle(h2);
        rec.recycle(x2);
        rec.recycle(at);
        rec.recycle(h);
        assert(rec@.live =~= a.live.insert(x3.buffer));
        x3
    }
}

/// Attention is the same as long as its weights are kept.
pub proof fn lemma_attention_kept(attn: Attention, a: DeviceView, b: DeviceView)
    requires
        attn.ok(a),
        forall|id: usize| #[trigger] attn.uses(id) ==> kept(a, b, id),
    ensures
        attn.ok(b),
        attn.on(b) == attn.on(a),
{
    assert(attn.uses(attn.q_proj.w.buffer));
    assert(attn.uses(attn.k_proj.w.buffer));
    assert(attn.uses(attn.v_proj.w.buffer));
    assert(attn.uses(attn.o_proj.w.buffer));
    if let Some(n) = attn.q_norm {
        assert(attn.uses(n.w.buffer));
    }
    if let Some(n) = attn.k_norm {
        assert(attn.uses(n.w.buffer));
    }
    if let Some(n) = attn.v_norm {
        assert(attn.uses(n.w.buffer));
    }
}

proof fn lemma_attention_same(attn: Attention, a: DeviceView, b: DeviceView)
    requires
        attn.ok(a),
        same_but(a, b, Set::empty()),
    ensures
        attn.on(b) == attn.on(a),
{
}

/// Numbers that a host computes for a standard decoder, as single-precision codes: the attention
/// scale `1/√head_dim` and the rotary tables, `max_seq` rows of `head_dim / 2` numbers each.
#[derive(Debug)]
pub struct DecoderNumbers {
    pub scale: u32,
    pub cos: Vec<u32>,
    pub sin: Vec<u32>,
}

/// In which order the weights of a layer are loaded: whether per-head norms are attached, and
/// whether they come after the projections rather than before.
#[derive(Clone, Copy, Debug, PartialEq, Eq, Structural)]
pub struct LayerOrder {
    pub has_qk_norm: bool,
    pub norms_late: bool,
}

/// The per-head norms of a layer.
pub open spec fn qk_norms(layer: nat, there: bool) -> Seq<ItemView> {
    if there {
        seq![
            layer_item(layer, "self_attn.q_norm"@, Want::Singles),
            layer_item(layer, "self_attn.k_norm"@, Want::Singles),
        ]
    } else {
        seq![]
    }
}

/// The weights of a layer, in the order in which they are loaded.
pub open spec fn layer_list(layer: nat, order: LayerOrder) -> Seq<ItemView> {
    seq![layer_item(layer, "input_layernorm"@, Want::Singles)] + qk_norms(
        layer,
        order.has_qk_norm && !order.norms_late,
    ) + seq![
        layer_item(layer, "self_attn.q_proj"@, Want::Halves),
        layer_item(layer, "self_attn.k_proj"@, Want::Halves),
        layer_item(layer, "self_attn.v_proj"@, Want::Halves),
        layer_item(layer, "self_attn.o_proj"@, Want::Halves),
    ] + qk_norms(layer, order.has_qk_norm && order.norms_late) + seq![
        layer_item(layer, "post_attention_layernorm"@, Want::Singles),
        layer_item(layer, "mlp.gate_proj"@, Want::Halves),
        layer_item(layer, "mlp.up_proj"@, Want::Halves),
        layer_item(layer, "mlp.down_proj"@, Want::Halves),
    ]
}

/// The weights of the layers from `i` on.
pub open spec fn layers_from(i: nat, n: nat, order: LayerOrder) -> Seq<ItemView>
    decreases n - i,
{
    if i >= n {
        seq![]
    } else {
        layer_list(i, order) + layers_from(i + 1, n, order)
    }
}

/// The embedding table, and the LM head where the source lists one.
pub open spec fn head_list(has_head: bool) -> Seq<ItemView> {
    if has_head {
        seq![embed_item(), head_item()]
    } else {
        seq![embed_item()]
    }
}

/// The embedding table.
pub open spec fn embed_item() -> ItemView {
    ItemView { name: "model.embed_tokens.weight"@, want: Want::Halves }
}

/// The LM head.
pub open spec fn head_item() -> ItemView {
    ItemView { name: "lm_head.weight"@, want: Want::Halves }
}

/// The final norm.
pub open spec fn norm_item() -> ItemView {
    ItemView { name: "model.norm.weight"@, want: Want::Singles }
}

/// The weights of a standard decoder of `n` layers, in the order in which they are loaded.
pub open spec fn decoder_list(n: nat, has_head: bool, order: LayerOrder) -> Seq<ItemView> {
    head_list(has_head) + layers_from(0, n, order) + seq![norm_item()]
}

/// A linear layer of a source.
pub open spec fn source_linear<S: WeightSource>(
    src: S,
    layer: nat,
    part: Seq<char>,
    in_f: usize,
    out_f: usize,
) -> LinearView {
    LinearView { w: weight_term(src, layer_item(layer, part, Want::Halves)), in_f, out_f }
}

/// A norm of a layer of a source.
pub open spec fn source_norm<S: WeightSource>(
    src: S,
    layer: nat,
    part: Seq<char>,
    eps: u32,
    dim: usize,
) -> RmsNormView {
    RmsNormView { w: weight_term(src, layer_item(layer, part, Want::Singles)), eps, dim }
}

/// A block of a source.
pub open spec fn source_block<S: WeightSource>(
    src: S,
    layer: nat,
    qk: bool,
    scale: u32,
    rope: RopeView,
) -> StandardView {
    let cfg = src.spec_config();
    let q_dim = (cfg.n_heads * cfg.head_dim) as usize;
    let kv_dim = (cfg.n_kv_heads * cfg.head_dim) as usize;
    StandardView {
        ln1: source_norm(src, layer, "input_layernorm"@, cfg.rms_eps, cfg.hidden),
        attn: AttentionView {
            q_proj: source_linear(src, layer, "self_attn.q_proj"@, cfg.hidden, q_dim),
            k_proj: source_linear(src, layer, "self_attn.k_proj"@, cfg.hidden, kv_dim),
            v_proj: source_linear(src, layer, "self_attn.v_proj"@, cfg.hidden, kv_dim),
            o_proj: source_linear(src, layer, "self_attn.o_proj"@, q_dim, cfg.hidden),
            q_norm: if qk {
                Some(source_norm(src, layer, "self_attn.q_norm"@, cfg.rms_eps, cfg.head_dim))
            } else {
                None
            },
            k_norm: if qk {
                Some(source_norm(src, layer, "self_attn.k_norm"@, cfg.rms_eps, cfg.head_dim))
            } else {
                None
            },
            v_norm: None,
            n_heads: cfg.n_heads,
            n_kv_heads: cfg.n_kv_heads,
            head_dim: cfg.head_dim,
            scale,
        },
        hidden: cfg.hidden,
        ln2: source_norm(src, layer, "post_attention_layernorm"@, cfg.rms_eps, cfg.hidden),
        mlp: MlpView {
            gate: source_linear(src, layer, "mlp.gate_proj"@, cfg.hidden, cfg.intermediate),
            up: source_linear(src, layer, "mlp.up_proj"@, cfg.hidden, cfg.intermediate),
            down: source_linear(src, layer, "mlp.down_proj"@, cfg.intermediate, cfg.hidden),
            activation: Activation::Swiglu,
        },
        rope,
    }
}

/// Whether the sizes of a standard decoder are in range.
pub open spec fn decoder_sized(cfg: ConfigView, max_seq: usize, numbers: DecoderNumbers) -> bool {
    &&& cfg.n_heads * cfg.head_dim <= usize::MAX
    &&& cfg.n_kv_heads * cfg.head_dim <= usize::MAX
    &&& max_seq * (cfg.head_dim / 2) * 4 <= usize::MAX
    &&& numbers.cos@.len() == max_seq * (cfg.head_dim / 2)
    &&& numbers.sin@.len() == max_seq * (cfg.head_dim / 2)
}

/// Tests whether a table is complete: `max_seq` rows of half the head size, and addressable.
pub(crate) fn table_complete(max_seq: usize, head_dim: usize, len: usize) -> (r: bool)
    ensures
        r == (max_seq * (head_dim / 2) * 4 <= usize::MAX && len == max_seq * (head_dim / 2)),
{
    in_range(max_seq, head_dim / 2) && len == max_seq * (head_dim / 2)
}

/// Tests whether the sizes of a standard decoder are in range.
pub fn decoder_in_range(cfg: &Config, max_seq: usize, numbers: &DecoderNumbers) -> (r: bool)
    ensures
        r == decoder_sized(cfg@, max_seq, *numbers),
{
    cfg.n_heads.checked_mul(cfg.head_dim).is_some() && cfg.n_kv_heads.checked_mul(
        cfg.head_dim,
    ).is_some() && table_complete(max_seq, cfg.head_dim, numbers.cos.len()) && table_complete(
        max_seq,
        cfg.head_dim,
        numbers.sin.len(),
    )
}

/// Whether the tensors of a block have the shapes and the element types of the weights of a layer,
/// and its rotary tables those of `max_seq` positions.
#[verifier::opaque]
pub open spec fn block_made_as<S: WeightSource>(
    b: StandardBlock,
    src: S,
    layer: nat,
    qk: bool,
    max_seq: usize,
) -> bool {
    let half = |t: Tensor, part: Seq<char>| made_as(t, src, layer_item(layer, part, Want::Halves));
    let single = |t: Tensor, part: Seq<char>|
        made_as(t, src, layer_item(layer, part, Want::Singles));
    &&& single(b.ln1.w, "input_layernorm"@)
    &&& half(b.attn.q_proj.w, "self_attn.q_proj"@)
    &&& half(b.attn.k_proj.w, "self_attn.k_proj"@)
    &&& half(b.attn.v_proj.w, "self_attn.v_proj"@)
    &&& half(b.attn.o_proj.w, "self_attn.o_proj"@)
    &&& qk ==> b.attn.q_norm is Some && single(b.attn.q_norm->Some_0.w, "self_attn.q_norm"@)
    &&& qk ==> b.attn.k_norm is Some && single(b.attn.k_norm->Some_0.w, "self_attn.k_norm"@)
    &&& b.attn.hidden == src.spec_config().hidden
    &&& single(b.ln2.w, "post_attention_layernorm"@)
    &&& half(b.mlp.gate.w, "mlp.gate_proj"@)
    &&& half(b.mlp.up.w, "mlp.up_proj"@)
    &&& half(b.mlp.down.w, "mlp.down_proj"@)
    &&& b.rope.made_for(max_seq)
}

/// Whether a model is the standard decoder of a source, with rotary tables up to `max_seq`.
pub open spec fn is_decoder<S: WeightSource>(
    m: LanguageModel<StandardBlock>,
    src: S,
    opts: DecoderOpts,
    max_seq: usize,
    numbers: DecoderNumbers,
    d: DeviceView,
) -> bool {
    let cfg = src.spec_config();
    let rope = RopeView {
        cos: Term::Words(numbers.cos@),
        sin: Term::Words(numbers.sin@),
        head_dim: cfg.head_dim,
    };
    &&& m.ok(d)
    &&& m.cfg@ == cfg
    &&& m.embed_w.in_dev(d) == weight_term(src, embed_item())
    &&& made_as(m.embed_w, src, embed_item())
    &&& m.lm_head_w is Some == has_head(src)
    &&& m.lm_head_w is Some ==> m.lm_head_w->Some_0.in_dev(d) == weight_term(src, head_item())
        && made_as(m.lm_head_w->Some_0, src, head_item())
    &&& m.blocks@.len() == cfg.n_layers
    &&& forall|l: int|
        0 <= l < m.blocks@.len() ==> (#[trigger] m.blocks@[l]).on(d) == source_block(
            src,
            l as nat,
            opts.has_qk_norm,
            numbers.scale,
            rope,
        ) && block_made_as(m.blocks@[l], src, l as nat, opts.has_qk_norm, max_seq)
    &&& m.norm.on(d) == (RmsNormView {
        w: weight_term(src, norm_item()),
        eps: cfg.rms_eps,
        dim: cfg.hidden,
    })
    &&& made_as(m.norm.w, src, norm_item())
    &&& m.embed_scale is None
    &&& m.logit_softcap is None
    &&& m.head_dims@ == Seq::new(cfg.n_layers as nat, |i: int| cfg.head_dim)
    &&& m.n_kv_heads == cfg.n_kv_heads
}

/// Whether a source lists an LM head of its own.
pub open spec fn has_head<S: WeightSource>(src: S) -> bool {
    src.spec_names().contains("lm_head.weight"@)
}

fn list_norms(items: &mut Vec<Item>, layer: usize)
    ensures
        item_list(final(items)@) == item_list(old(items)@) + qk_norms(layer as nat, true),
{
    let ghost before = item_list(items@);
    push_layer(items, layer, "self_attn.q_norm", Want::Singles);
    push_layer(items, layer, "self_attn.k_norm", Want::Singles);
    assert(item_list(items@) =~= before + qk_norms(layer as nat, true));
}

fn list_layer(items: &mut Vec<Item>, layer: usize, order: LayerOrder)
    ensures
        item_list(final(items)@) == item_list(old(items)@) + layer_list(layer as nat, order),
{
    let ghost before = item_list(items@);
    push_layer(items, layer, "input_layernorm", Want::Singles);
    if order.has_qk_norm && !order.norms_late {
        list_norms(items, layer);
    }
    push_layer(items, layer, "self_attn.q_proj", Want::Halves);
    push_layer(items, layer, "self_attn.k_proj", Want::Halves);
    push_layer(items, layer, "self_attn.v_proj", Want::Halves);
    push_layer(items, layer, "self_attn.o_proj", Want::Halves);
    if order.has_qk_norm && order.norms_late {
        list_norms(items, layer);
    }
    push_layer(items, layer, "post_attention_layernorm", Want::Singles);
    push_layer(items, layer, "mlp.gate_proj", Want::Halves);
    push_layer(items, layer, "mlp.up_proj", Want::Halves);
    push_layer(items, layer, "mlp.down_proj", Want::Halves);
    assert(item_list(items@) =~= before + layer_list(layer as nat, order));
}

/// Lists the weights of a standard decoder in the order in which they are loaded.
fn list_decoder(n: usize, has_head: bool, order: LayerOrder) -> (r: Vec<Item>)
    ensures
        item_list(r@) == decoder_list(n as nat, has_head, order),
{
    let mut items: Vec<Item> = Vec::new();
    assert(item_list(items@) =~= seq![]);
    push_item(&mut items, "model.embed_tokens.weight", Want::Halves);
    if has_head {
        push_item(&mut items, "lm_head.weight", Want::Halves);
    }
    assert(item_list(items@) =~= head_list(has_head));
    let ghost all = head_list(has_head) + layers_from(0, n as nat, order);
    let mut i: usize = 0;
    while i < n
        invariant
            i <= n,
            item_list(items@) + layers_from(i as nat, n as nat, order) == all,
        decreases n - i,
    {
        let ghost before = item_list(items@);
        list_layer(&mut items, i, order);
        assert(item_list(items@) + layers_from((i + 1) as nat, n as nat, order) =~= before
            + layers_from(i as nat, n as nat, order));
        i = i + 1;
    }
    assert(item_list(items@) =~= all);
    push_item(&mut items, "model.norm.weight", Want::Singles);
    assert(item_list(items@) =~= decoder_list(n as nat, has_head, order));
    items
}

/// The tensors of a layer.
pub(crate) struct LayerTensors {
    pub input_layernorm: Tensor,
    pub q_norm: Option<Tensor>,
    pub k_norm: Option<Tensor>,
    pub q_proj: Tensor,
    pub k_proj: Tensor,
    pub v_proj: Tensor,
    pub o_proj: Tensor,
    pub post_attention_layernorm: Tensor,
    pub gate_proj: Tensor,
    pub up_proj: Tensor,
    pub down_proj: Tensor,
}

/// Whether a tensor is a weight of a source.
pub open spec fn is_weight<S: WeightSource>(t: Tensor, src: S, item: ItemView, d: DeviceView) -> bool {
    t.ok(d) && t.in_dev(d) == weight_term(src, item) && made_as(t, src, item)
}

/// Whether a tensor is a weight of a source where it has to be there, and else is not there.
pub open spec fn is_weight_if<S: WeightSource>(
    t: Option<Tensor>,
    there: bool,
    src: S,
    item: ItemView,
    d: DeviceView,
) -> bool {
    match t {
        Some(t) => there && is_weight(t, src, item, d),
        None => !there,
    }
}

impl LayerTensors {
    /// Whether these are the tensors of a layer of a source.
    pub(crate) open spec fn of<S: WeightSource>(
        self,
        src: S,
        layer: nat,
        qk: bool,
        d: DeviceView,
    ) -> bool {
        &&& is_weight(
            self.input_layernorm,
            src,
            layer_item(layer, "input_layernorm"@, Want::Singles),
            d,
        )
        &&& is_weight_if(
            self.q_norm,
            qk,
            src,
            layer_item(layer, "self_attn.q_norm"@, Want::Singles),
            d,
        )
        &&& is_weight_if(
            self.k_norm,
            qk,
            src,
            layer_item(layer, "self_attn.k_norm"@, Want::Singles),
            d,
        )
        &&& is_weight(self.q_proj, src, layer_item(layer, "self_attn.q_proj"@, Want::Halves), d)
        &&& is_weight(self.k_proj, src, layer_item(layer, "self_attn.k_proj"@, Want::Halves), d)
        &&& is_weight(self.v_proj, src, layer_item(layer, "self_attn.v_proj"@, Want::Halves), d)
        &&& is_weight(self.o_proj, src, layer_item(layer, "self_attn.o_proj"@, Want::Halves), d)
        &&& is_weight(
            self.post_attention_layernorm,
            src,
            layer_item(layer, "post_attention_layernorm"@, Want::Singles),
            d,
        )
        &&& is_weight(self.gate_proj, src, layer_item(layer, "mlp.gate_proj"@, Want::Halves), d)
        &&& is_weight(self.up_proj, src, layer_item(layer, "mlp.up_proj"@, Want::Halves), d)
        &&& is_weight(self.down_proj, src, layer_item(layer, "mlp.down_proj"@, Want::Halves), d)
    }
}

fn norm_over(t: Option<Tensor>, eps: u32, dim: usize) -> (r: Option<RmsNorm>)
    ensures
        r == match t {
            Some(w) => Some(RmsNorm { w, eps, dim }),
            None => None,
        },
{
    match t {
        Some(w) => Some(RmsNorm::new(w, eps, dim)),
        None => None,
    }
}

/// Puts the tensors of a layer together.
pub(crate) fn assemble<S: WeightSource>(
    t: LayerTensors,
    cfg: &Config,
    scale: u32,
    rope: Arc<Rope>,
    Ghost(src): Ghost<S>,
    Ghost(layer): Ghost<nat>,
    Ghost(qk): Ghost<bool>,
    Ghost(d): Ghost<DeviceView>,
) -> (r: StandardBlock)
    requires
        t.of(src, layer, qk, d),
        cfg@ == src.spec_config(),
        cfg.n_heads * cfg.head_dim <= usize::MAX,
        cfg.n_kv_heads * cfg.head_dim <= usize::MAX,
        rope.ok(d),
        rope.made_for(rope.max_seq),
    ensures
        r.ok(d),
        r.on(d) == source_block(src, layer, qk, scale, rope.on(d)),
        block_made_as(r, src, layer, qk, rope.max_seq),
{
    proof {
        reveal(block_made_as);
    }
    let (hidden, inter, eps) = (cfg.hidden, cfg.intermediate, cfg.rms_eps);
    let q_dim = cfg.n_heads * cfg.head_dim;
    let kv_dim = cfg.n_kv_heads * cfg.head_dim;
    StandardBlock {
        ln1: RmsNorm::new(t.input_layernorm, eps, hidden),
        attn: Attention {
            q_proj: Linear::new(t.q_proj, hidden, q_dim),
            k_proj: Linear::new(t.k_proj, hidden, kv_dim),
            v_proj: Linear::new(t.v_proj, hidden, kv_dim),
            o_proj: Linear::new(t.o_proj, q_dim, hidden),
            q_norm: norm_over(t.q_norm, eps, cfg.head_dim),
            k_norm: norm_over(t.k_norm, eps, cfg.head_dim),
            v_norm: None,
            n_heads: cfg.n_heads,
            n_kv_heads: cfg.n_kv_heads,
            head_dim: cfg.head_dim,
            hidden,
            scale,
        },
        ln2: RmsNorm::new(t.post_attention_layernorm, eps, hidden),
        mlp: Mlp::new(
            Linear::new(t.gate_proj, hidden, inter),
            Linear::new(t.up_proj, hidden, inter),
            Linear::new(t.down_proj, inter, hidden),
        ),
        rope,
    }
}

/// Takes the tensors of a layer from loaded weights.
#[verifier::rlimit(40)]
fn take_layer<S: WeightSource>(
    stock: &mut Vec<Loaded>,
    order: LayerOrder,
    Ghost(src): Ghost<S>,
    Ghost(list): Ghost<Seq<ItemView>>,
    Ghost(p): Ghost<int>,
    Ghost(layer): Ghost<nat>,
    Ghost(d): Ghost<DeviceView>,
) -> (r: LayerTensors)
    requires
        0 <= p,
        p + layer_list(layer, order).len() <= list.len(),
        forall|j: int|
            0 <= j < layer_list(layer, order).len() ==> list[p + j] == #[trigger] layer_list(
                layer,
                order,
            )[j],
        left(src, list.skip(p), old(stock)@, d),
    ensures
        r.of(src, layer, order.has_qk_norm, d),
        left(src, list.skip(p + layer_list(layer, order).len()), final(stock)@, d),
{
    let ghost l = layer_list(layer, order);
    let early = order.has_qk_norm && !order.norms_late;
    let late = order.has_qk_norm && order.norms_late;
    let ghost e: int = if early {
        2
    } else {
        0
    };
    let ghost n: int = if order.has_qk_norm {
        2
    } else {
        0
    };
    proof {
        assert(list[p + 0] == l[0]);
        if early {
            assert(list[p + 1] == l[1]);
            assert(list[p + 2] == l[2]);
        }
        if late {
            assert(list[p + 5] == l[5]);
            assert(list[p + 6] == l[6]);
        }
        assert(list[p + (e + 1)] == l[e + 1]);
        assert(list[p + (e + 2)] == l[e + 2]);
        assert(list[p + (e + 3)] == l[e + 3]);
        assert(list[p + (e + 4)] == l[e + 4]);
        assert(list[p + (n + 5)] == l[n + 5]);
        assert(list[p + (n + 6)] == l[n + 6]);
        assert(list[p + (n + 7)] == l[n + 7]);
        assert(list[p + (n + 8)] == l[n + 8]);
    }
    let input_layernorm = take_tensor::<S>(stock, Ghost(src), Ghost(list), Ghost(p), Ghost(d));
    let mut q_norm: Option<Tensor> = None;
    let mut k_norm: Option<Tensor> = None;
    if early {
        q_norm = Some(take_tensor::<S>(stock, Ghost(src), Ghost(list), Ghost(p + 1), Ghost(d)));
        k_norm = Some(take_tensor::<S>(stock, Ghost(src), Ghost(list), Ghost(p + 2), Ghost(d)));
    }
    let q_proj = take_tensor::<S>(stock, Ghost(src), Ghost(list), Ghost(p + e + 1), Ghost(d));
    let k_proj = take_tensor::<S>(stock, Ghost(src), Ghost(list), Ghost(p + e + 2), Ghost(d));
    let v_proj = take_tensor::<S>(stock, Ghost(src), Ghost(list), Ghost(p + e + 3), Ghost(d));
    let o_proj = take_tensor::<S>(stock, Ghost(src), Ghost(list), Ghost(p + e + 4), Ghost(d));
    if late {
        q_norm = Some(take_tensor::<S>(stock, Ghost(src), Ghost(list), Ghost(p + 5), Ghost(d)));
        k_norm = Some(take_tensor::<S>(stock, Ghost(src), Ghost(list), Ghost(p + 6), Ghost(d)));
    }
    let post = take_tensor::<S>(stock, Ghost(src), Ghost(list), Ghost(p + n + 5), Ghost(d));
    let gate_proj = take_tensor::<S>(stock, Ghost(src), Ghost(list), Ghost(p + n + 6), Ghost(d));
    let up_proj = take_tensor::<S>(stock, Ghost(src), Ghost(list), Ghost(p + n + 7), Ghost(d));
    let down_proj = take_tensor::<S>(stock, Ghost(src), Ghost(list), Ghost(p + n + 8), Ghost(d));
    LayerTensors {
        input_layernorm,
        q_norm,
        k_norm,
        q_proj,
        k_proj,
        v_proj,
        o_proj,
        post_attention_layernorm: post,
        gate_proj,
        up_proj,
        down_proj,
    }
}

/// What a failed loading leaves: the error of the first weight that cannot be had, and a device
/// whose buffers are as they were.
pub open spec fn load_failed<S: WeightSource>(
    src: S,
    list: Seq<ItemView>,
    e: ErrorView,
    a: DeviceView,
    b: DeviceView,
) -> bool {
    let gap = first_gap(src, list, list.len() as int);
    &&& gap < list.len()
    &&& weight_refusal(src, list[gap], e)
    &&& b.live == a.live
    &&& same_but(a, b, Set::empty())
}

/// Whether all weights of a list can be had.
pub open spec fn all_there<S: WeightSource>(src: S, list: Seq<ItemView>) -> bool {
    first_gap(src, list, list.len() as int) == list.len()
}

/// Loads a Qwen3/Llama/Mistral-family model, with rotary tables up to `max_seq`.
pub fn load<S: WeightSource>(
    dev: &mut Device,
    src: &S,
    max_seq: usize,
    opts: DecoderOpts,
    numbers: DecoderNumbers,
) -> (r: Result<LanguageModel<StandardBlock>>)
    requires
        old(dev)@.wf(),
        decoder_sized(src.spec_config(), max_seq, numbers),
    ensures
        final(dev)@.wf(),
        loads(
            *src,
            (LayerOrder { has_qk_norm: opts.has_qk_norm, norms_late: false }),
            max_seq,
            numbers,
            r,
            old(dev)@,
            final(dev)@,
        ),
{
    load_ordered(
        dev,
        src,
        max_seq,
        LayerOrder { has_qk_norm: opts.has_qk_norm, norms_late: false },
        numbers,
    )
}

/// What loading a standard decoder gives: the decoder of the source where all its weights can be
/// had, else the error of the first that cannot.
pub open spec fn loads<S: WeightSource>(
    src: S,
    order: LayerOrder,
    max_seq: usize,
    numbers: DecoderNumbers,
    r: Result<LanguageModel<StandardBlock>>,
    a: DeviceView,
    b: DeviceView,
) -> bool {
    let list = decoder_list(src.spec_config().n_layers as nat, has_head(src), order);
    match r {
        Ok(m) => all_there(src, list) && is_decoder(
            m,
            src,
            (DecoderOpts { has_qk_norm: order.has_qk_norm }),
            max_seq,
            numbers,
            b,
        ) && same_but(a, b, Set::empty()) && a.live.subset_of(b.live),
        Err(e) => load_failed(src, list, e@, a, b),
    }
}

/// Loads a standard decoder, with the weights of each layer in the given order.
#[verifier::rlimit(90)]
#[verifier::spinoff_prover]
pub(crate) fn load_ordered<S: WeightSource>(
    dev: &mut Device,
    src: &S,
    max_seq: usize,
    order: LayerOrder,
    numbers: DecoderNumbers,
) -> (r: Result<LanguageModel<StandardBlock>>)
    requires
        old(dev)@.wf(),
        decoder_sized(src.spec_config(), max_seq, numbers),
    ensures
        final(dev)@.wf(),
        loads(*src, order, max_seq, numbers, r, old(dev)@, final(dev)@),
{
    let ghost a = dev@;
    let cfg = src.config().clone();
    let ghost qk = order.has_qk_norm;
    let n = cfg.n_layers;
    let names = src.tensor_names();
    let head = has_name(&names, "lm_head.weight");
    let items = list_decoder(n, head, order);
    let ghost list = item_list(items@);
    let v = match load_items(dev, src, &items) {
        Ok(v) => v,
        Err(e) => return Err(e),
    };
    let ghost b = dev@;
    let rope = Arc::new(
        Rope::build(
            dev,
            max_seq,
            cfg.head_dim,
            numbers.cos.as_slice(),
            numbers.sin.as_slice(),
        ),
    );
    let ghost d = dev@;
    let ghost ro = rope.on(d);
    proof {
        lemma_listed_kept(*src, list, v@, b, d);
        assert(list.skip(0) =~= list);
    }
    let mut stock = turned::<S>(v, Ghost(*src), Ghost(list), Ghost(d));
    let ghost h = head_list(head).len() as int;
    proof {
        assert(list[0] == embed_item());
        if head {
            assert(list[1] == head_item());
        }
    }
    let embed_w = take_tensor::<S>(&mut stock, Ghost(*src), Ghost(list), Ghost(0int), Ghost(d));
    let mut lm_head_w: Option<Tensor> = None;
    if head {
        lm_head_w = Some(
            take_tensor::<S>(&mut stock, Ghost(*src), Ghost(list), Ghost(1int), Ghost(d)),
        );
    }
    let mut blocks: Vec<StandardBlock> = Vec::new();
    let mut head_dims: Vec<usize> = Vec::new();
    let ghost mut p = h;
    let mut i: usize = 0;
    assert(list.skip(p) =~= layers_from(0, n as nat, order) + seq![norm_item()]);
    while i < n
        invariant
            i <= n,
            n == cfg.n_layers,
            qk == order.has_qk_norm,
            cfg@ == src.spec_config(),
            decoder_sized(src.spec_config(), max_seq, numbers),
            rope.ok(d),
            rope.made_for(max_seq),
            rope.on(d) == ro,
            0 <= p <= list.len(),
            list.skip(p) == layers_from(i as nat, n as nat, order) + seq![norm_item()],
            left(*src, list.skip(p), stock@, d),
            blocks@.len() == i,
            head_dims@ == Seq::new(i as nat, |k: int| cfg.head_dim),
            forall|l: int|
                0 <= l < i ==> (#[trigger] blocks@[l]).ok(d) && blocks@[l].on(d) == source_block(
                    *src,
                    l as nat,
                    qk,
                    numbers.scale,
                    ro,
                ) && block_made_as(blocks@[l], *src, l as nat, qk, max_seq),
        decreases n - i,
    {
        let ghost l = layer_list(i as nat, order);
        let ghost rest = layers_from((i + 1) as nat, n as nat, order) + seq![norm_item()];
        proof {
            assert(list.skip(p) =~= l + rest);
            lemma_skip_further(list, p, l, rest);
        }
        let t = take_layer::<S>(
            &mut stock,
            order,
            Ghost(*src),
            Ghost(list),
            Ghost(p),
            Ghost(i as nat),
            Ghost(d),
        );
        let block = assemble::<S>(
            t,
            &cfg,
            numbers.scale,
            rope.clone(),
            Ghost(*src),
            Ghost(i as nat),
            Ghost(qk),
            Ghost(d),
        );
        blocks.push(block);
        head_dims.push(cfg.head_dim);
        proof {
            assert(head_dims@ =~= Seq::new((i + 1) as nat, |k: int| cfg.head_dim));
            p = p + l.len();
        }
        i = i + 1;
    }
    proof {
        assert(list.skip(p)[0] == list[p]);
        assert(list[p] == norm_item());
    }
    let norm_w = take_tensor::<S>(&mut stock, Ghost(*src), Ghost(list), Ghost(p), Ghost(d));
    let norm = RmsNorm::new(norm_w, cfg.rms_eps, cfg.hidden);
    let n_kv_heads = cfg.n_kv_heads;
    let m = LanguageModel {
        embed_w,
        lm_head_w,
        blocks,
        norm,
        embed_scale: None,
        logit_softcap: None,
        head_dims,
        n_kv_heads,
        cfg,
    };
    proof {
        assert forall|l: int, id: usize|
            0 <= l < m.blocks@.len() && #[trigger] m.blocks@[l].uses(id) implies d.live.contains(
            id,
        ) by {
            assert(m.blocks@[l].ok(d));
        }
    }
    Ok(m)
}

/// Whether two sources have the same weights of a list.
pub open spec fn same_weights<A: WeightSource, B: WeightSource>(
    a: A,
    b: B,
    list: Seq<ItemView>,
) -> bool {
    forall|i: int| 0 <= i < list.len() ==> weight(a, #[trigger] list[i]) == weight(b, list[i])
}

proof fn lemma_layer_listed(i: nat, n: nat, order: LayerOrder, layer: nat, item: ItemView)
    requires
        i <= layer < n,
        layer_list(layer, order).contains(item),
    ensures
        layers_from(i, n, order).contains(item),
    decreases n - i,
{
    let (first, rest) = (layer_list(i, order), layers_from(i + 1, n, order));
    if i == layer {
        let j = choose|j: int| 0 <= j < first.len() && first[j] == item;
        assert((first + rest)[j] == item);
    } else {
        lemma_layer_listed(i + 1, n, order, layer, item);
        let j = choose|j: int| 0 <= j < rest.len() && rest[j] == item;
        assert((first + rest)[first.len() + j] == item);
    }
}

/// A weight of a layer is the same in two sources that have the same weights of a decoder.
proof fn lemma_layer_weight<A: WeightSource, B: WeightSource>(
    a: A,
    b: B,
    n: nat,
    head: bool,
    order: LayerOrder,
    layer: nat,
    j: int,
)
    requires
        same_weights(a, b, decoder_list(n, head, order)),
        layer < n,
        0 <= j < layer_list(layer, order).len(),
    ensures
        weight(a, layer_list(layer, order)[j]) == weight(b, layer_list(layer, order)[j]),
{
    let item = layer_list(layer, order)[j];
    let (h, l) = (head_list(head), layers_from(0, n, order));
    assert(layer_list(layer, order).contains(item));
    lemma_layer_listed(0, n, order, layer, item);
    let k = choose|k: int| 0 <= k < l.len() && l[k] == item;
    assert(decoder_list(n, head, order)[h.len() + k] == item);
}

proof fn lemma_same_block<A: WeightSource, B: WeightSource>(
    a: A,
    b: B,
    order: LayerOrder,
    scale: u32,
    rope: RopeView,
    layer: nat,
)
    requires
        a.spec_config() == b.spec_config(),
        layer < a.spec_config().n_layers,
        same_weights(
            a,
            b,
            decoder_list(a.spec_config().n_layers as nat, has_head(a), order),
        ),
    ensures
        source_block(a, layer, order.has_qk_norm, scale, rope) == source_block(
            b,
            layer,
            order.has_qk_norm,
            scale,
            rope,
        ),
{
    let l = layer_list(layer, order);
    let n = a.spec_config().n_layers as nat;
    let e: int = if order.has_qk_norm && !order.norms_late {
        2
    } else {
        0
    };
    let m: int = if order.has_qk_norm {
        2
    } else {
        0
    };
    assert forall|j: int| 0 <= j < l.len() implies weight(a, #[trigger] l[j]) == weight(b, l[j]) by {
        lemma_layer_weight(a, b, n, has_head(a), order, layer, j);
    }
    assert(l[0] == layer_item(layer, "input_layernorm"@, Want::Singles));
    if order.has_qk_norm {
        let q: int = if order.norms_late {
            5
        } else {
            1
        };
        assert(l[q] == layer_item(layer, "self_attn.q_norm"@, Want::Singles));
        assert(l[q + 1] == layer_item(layer, "self_attn.k_norm"@, Want::Singles));
    }
    assert(l[e + 1] == layer_item(layer, "self_attn.q_proj"@, Want::Halves));
    assert(l[e + 2] == layer_item(layer, "self_attn.k_proj"@, Want::Halves));
    assert(l[e + 3] == layer_item(layer, "self_attn.v_proj"@, Want::Halves));
    assert(l[e + 4] == layer_item(layer, "self_attn.o_proj"@, Want::Halves));
    assert(l[m + 5] == layer_item(layer, "post_attention_layernorm"@, Want::Singles));
    assert(l[m + 6] == layer_item(layer, "mlp.gate_proj"@, Want::Halves));
    assert(l[m + 7] == layer_item(layer, "mlp.up_proj"@, Want::Halves));
    assert(l[m + 8] == layer_item(layer, "mlp.down_proj"@, Want::Halves));
}

proof fn lemma_same_through(
    x: Seq<StandardBlock>,
    y: Seq<StandardBlock>,
    n: int,
    d: DeviceView,
    e: DeviceView,
    flow: Flow,
    rows: usize,
    base_pos: usize,
    max_seq: usize,
)
    requires
        n <= x.len(),
        n <= y.len(),
        forall|l: int| 0 <= l < n ==> (#[trigger] x[l]).on(d) == y[l].on(e),
    ensures
        through(x, n, d, flow, rows, base_pos, max_seq) == through(
            y,
            n,
            e,
            flow,
            rows,
            base_pos,
            max_seq,
        ),
    decreases n,
{
    if n > 0 {
        lemma_same_through(x, y, n - 1, d, e, flow, rows, base_pos, max_seq);
        assert(x[n - 1].on(d) == y[n - 1].on(e));
    }
}

/// Decoders whose weights hold the same compute the same.
proof fn lemma_alike(
    x: LanguageModel<StandardBlock>,
    y: LanguageModel<StandardBlock>,
    d: DeviceView,
    e: DeviceView,
    ids: Seq<u32>,
    base_pos: usize,
    max_seq: usize,
    k: Seq<Term>,
    v: Seq<Term>,
    slice: bool,
)
    requires
        x.embed_w.in_dev(d) == y.embed_w.in_dev(e),
        x.head(d) == y.head(e),
        x.norm.on(d) == y.norm.on(e),
        x.embed_scale == y.embed_scale,
        x.cfg@ == y.cfg@,
        x.blocks@.len() == y.blocks@.len(),
        forall|l: int|
            0 <= l < x.blocks@.len() ==> (#[trigger] x.blocks@[l]).on(d) == y.blocks@[l].on(e),
    ensures
        x.sliced_logits(d, ids, base_pos, max_seq, k, v, slice) == y.sliced_logits(
            e,
            ids,
            base_pos,
            max_seq,
            k,
            v,
            slice,
        ),
{
    let n = x.blocks@.len() as int;
    let rows = ids.len() as usize;
    let start = Flow {
        x: embedded(x.embed_w.in_dev(d), x.embed_scale, ids, x.cfg.hidden),
        k,
        v,
    };
    lemma_same_through(x.blocks@, y.blocks@, n, d, e, start, rows, base_pos, max_seq);
}

proof fn lemma_same_blocks<A: WeightSource, B: WeightSource>(
    x: LanguageModel<StandardBlock>,
    y: LanguageModel<StandardBlock>,
    a: A,
    b: B,
    order: LayerOrder,
    table: usize,
    numbers: DecoderNumbers,
    d: DeviceView,
    e: DeviceView,
    l: int,
)
    requires
        is_decoder(x, a, (DecoderOpts { has_qk_norm: order.has_qk_norm }), table, numbers, d),
        is_decoder(y, b, (DecoderOpts { has_qk_norm: order.has_qk_norm }), table, numbers, e),
        a.spec_config() == b.spec_config(),
        same_weights(
            a,
            b,
            decoder_list(a.spec_config().n_layers as nat, has_head(a), order),
        ),
        0 <= l < x.blocks@.len(),
    ensures
        x.blocks@[l].on(d) == y.blocks@[l].on(e),
{
    let rope = RopeView {
        cos: Term::Words(numbers.cos@),
        sin: Term::Words(numbers.sin@),
        head_dim: a.spec_config().head_dim,
    };
    lemma_same_block(a, b, order, numbers.scale, rope, l as nat);
}

proof fn lemma_same_rest<A: WeightSource, B: WeightSource>(
    x: LanguageModel<StandardBlock>,
    y: LanguageModel<StandardBlock>,
    a: A,
    b: B,
    order: LayerOrder,
    table: usize,
    numbers: DecoderNumbers,
    d: DeviceView,
    e: DeviceView,
)
    requires
        is_decoder(x, a, (DecoderOpts { has_qk_norm: order.has_qk_norm }), table, numbers, d),
        is_decoder(y, b, (DecoderOpts { has_qk_norm: order.has_qk_norm }), table, numbers, e),
        a.spec_config() == b.spec_config(),
        has_head(a) == has_head(b),
        same_weights(
            a,
            b,
            decoder_list(a.spec_config().n_layers as nat, has_head(a), order),
        ),
    ensures
        x.embed_w.in_dev(d) == y.embed_w.in_dev(e),
        x.head(d) == y.head(e),
        x.norm.on(d) == y.norm.on(e),
        x.embed_scale == y.embed_scale,
        x.cfg@ == y.cfg@,
        x.blocks@.len() == y.blocks@.len(),
{
    let list = decoder_list(a.spec_config().n_layers as nat, has_head(a), order);
    assert(list[0] == embed_item());
    if has_head(a) {
        assert(list[1] == head_item());
    }
    assert(list[list.len() - 1] == norm_item());
}

/// It does not matter in which format a decoder is stored: decoders of the same configuration and
/// the same weights compute the same logits, wherever their weights come from and on whichever
/// device they are.
pub proof fn lemma_same_weights_same_logits<A: WeightSource, B: WeightSource>(
    x: LanguageModel<StandardBlock>,
    y: LanguageModel<StandardBlock>,
    a: A,
    b: B,
    order: LayerOrder,
    table: usize,
    numbers: DecoderNumbers,
    d: DeviceView,
    e: DeviceView,
    ids: Seq<u32>,
    base_pos: usize,
    max_seq: usize,
    k: Seq<Term>,
    v: Seq<Term>,
    slice: bool,
)
    requires
        is_decoder(x, a, (DecoderOpts { has_qk_norm: order.has_qk_norm }), table, numbers, d),
        is_decoder(y, b, (DecoderOpts { has_qk_norm: order.has_qk_norm }), table, numbers, e),
        a.spec_config() == b.spec_config(),
        has_head(a) == has_head(b),
        same_weights(
            a,
            b,
            decoder_list(a.spec_config().n_layers as nat, has_head(a), order),
        ),
    ensures
        x.sliced_logits(d, ids, base_pos, max_seq, k, v, slice) == y.sliced_logits(
            e,
            ids,
            base_pos,
            max_seq,
            k,
            v,
            slice,
        ),
{
    lemma_same_rest(x, y, a, b, order, table, numbers, d, e);
    assert forall|l: int| 0 <= l < x.blocks@.len() implies (#[trigger] x.blocks@[l]).on(d)
        == y.blocks@[l].on(e) by {
        lemma_same_blocks(x, y, a, b, order, table, numbers, d, e, l);
    }
    lemma_alike(x, y, d, e, ids, base_pos, max_seq, k, v, slice);
}

} // verus!
