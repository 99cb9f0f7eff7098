//! Where the numbers of a loaded model come from: what the kernels read of each weight is the
//! tensor of the source that has the weight's name, in its place, and the sizes of the layers fit
//! together.

use vstd::arithmetic::power2::*;
use vstd::prelude::*;

use crate::config::ConfigView;
use crate::coverage::{half_cell, narrow};
use crate::float::{halved, widened};
use crate::gpu::device::DeviceView;
use crate::gpu::elements::{value, Number};
use crate::gpu::memory::Term;
use crate::models::decoder::{
    is_decoder, source_block, DecoderNumbers, DecoderOpts, StandardBlock, StandardView,
};
use crate::models::gemma4::{
    global_head_dim, global_rope, is_gemma, local_rope, scalar_name, source_gemma, GemmaBlock,
    GemmaNumbers, GemmaView, ONE,
};
use crate::models::loading::{layer_item, weight_term, ItemView, Want};
use crate::models::model::{Block, LanguageModel};
use crate::models::sequence::{regular_gemma, regular_model, regular_standard};
use crate::models::{loads_model, Model, Numbers};
use crate::models::upload::{
    floats, half_words, lemma_halves_uploaded, lemma_singles_uploaded, single_words,
};
use crate::nn::layers::Activation;
use crate::nn::rope::RopeView;
use crate::rounding::exact;
use crate::source::{layer_name, WeightSource};
use crate::text::dec;

verus! {

/// Whether what the kernels read in `t` as halves is the tensor of this name of a source, each
/// weight in its place and rounded to 16 bits.
#[verifier::opaque]
pub open spec fn reads_halves<S: WeightSource>(t: Term, src: S, name: Seq<char>) -> bool {
    let raw = src.spec_raw(name)->Some_0;
    src.spec_raw(name) is Some && half_words(raw) is Ok ==> forall|i: int|
        0 <= i < floats(raw)->Ok_0.len() ==> #[trigger] half_cell(t, i) == Number::Word(
            widened(halved(floats(raw)->Ok_0[i])),
        )
}

/// Whether what the kernels read in `t` is the tensor of this name of a source, each weight in its
/// place.
#[verifier::opaque]
pub open spec fn reads_singles<S: WeightSource>(t: Term, src: S, name: Seq<char>) -> bool {
    let raw = src.spec_raw(name)->Some_0;
    src.spec_raw(name) is Some && single_words(raw) is Ok ==> forall|i: int|
        0 <= i < floats(raw)->Ok_0.len() ==> #[trigger] value(t, i) == Number::Word(
            floats(raw)->Ok_0[i],
        )
}

/// The name of a tensor of a layer.
pub open spec fn layer_tensor(layer: nat, tail: Seq<char>) -> Seq<char> {
    "model.layers."@ + dec(layer) + tail
}

proof fn lemma_halves_named<S: WeightSource>(src: S, name: Seq<char>)
    ensures
        reads_halves(
            weight_term(src, (ItemView { name, want: Want::Halves })),
            src,
            name,
        ),
{
    reveal(reads_halves);
    let raw = src.spec_raw(name)->Some_0;
    if src.spec_raw(name) is Some && half_words(raw) is Ok {
        let t = Term::Words(half_words(raw)->Ok_0);
        assert forall|i: int| 0 <= i < floats(raw)->Ok_0.len() implies #[trigger] half_cell(t, i)
            == Number::Word(widened(halved(floats(raw)->Ok_0[i]))) by {
            lemma_halves_uploaded(raw, i);
        }
    }
}

proof fn lemma_singles_named<S: WeightSource>(src: S, name: Seq<char>)
    ensures
        reads_singles(
            weight_term(src, (ItemView { name, want: Want::Singles })),
            src,
            name,
        ),
{
    reveal(reads_singles);
    let raw = src.spec_raw(name)->Some_0;
    if src.spec_raw(name) is Some && single_words(raw) is Ok {
        let t = Term::Words(single_words(raw)->Ok_0);
        assert forall|i: int| 0 <= i < floats(raw)->Ok_0.len() implies #[trigger] value(t, i)
            == Number::Word(floats(raw)->Ok_0[i]) by {
            lemma_singles_uploaded(raw, i);
        }
    }
}

proof fn lemma_halves_read<S: WeightSource>(src: S, layer: nat, part: Seq<char>, tail: Seq<char>)
    requires
        "."@ + part + ".weight"@ == tail,
    ensures
        reads_halves(
            weight_term(src, layer_item(layer, part, Want::Halves)),
            src,
            layer_tensor(layer, tail),
        ),
{
    assert(layer_name(layer, part) =~= layer_tensor(layer, tail));
    lemma_halves_named(src, layer_name(layer, part));
}

proof fn lemma_singles_read<S: WeightSource>(src: S, layer: nat, part: Seq<char>, tail: Seq<char>)
    requires
        "."@ + part + ".weight"@ == tail,
    ensures
        reads_singles(
            weight_term(src, layer_item(layer, part, Want::Singles)),
            src,
            layer_tensor(layer, tail),
        ),
{
    assert(layer_name(layer, part) =~= layer_tensor(layer, tail));
    lemma_singles_named(src, layer_name(layer, part));
}

proof fn lemma_tails()
    ensures
        "."@ + "input_layernorm"@ + ".weight"@ == ".input_layernorm.weight"@,
        "."@ + "mlp.down_proj"@ + ".weight"@ == ".mlp.down_proj.weight"@,
        "."@ + "mlp.gate_proj"@ + ".weight"@ == ".mlp.gate_proj.weight"@,
        "."@ + "mlp.up_proj"@ + ".weight"@ == ".mlp.up_proj.weight"@,
        "."@ + "post_attention_layernorm"@ + ".weight"@ == ".post_attention_layernorm.weight"@,
        "."@ + "post_feedforward_layernorm"@ + ".weight"@ == ".post_feedforward_layernorm.weight"@,
        "."@ + "pre_feedforward_layernorm"@ + ".weight"@ == ".pre_feedforward_layernorm.weight"@,
        "."@ + "self_attn.k_norm"@ + ".weight"@ == ".self_attn.k_norm.weight"@,
        "."@ + "self_attn.k_proj"@ + ".weight"@ == ".self_attn.k_proj.weight"@,
        "."@ + "self_attn.o_proj"@ + ".weight"@ == ".self_attn.o_proj.weight"@,
        "."@ + "self_attn.q_norm"@ + ".weight"@ == ".self_attn.q_norm.weight"@,
        "."@ + "self_attn.q_proj"@ + ".weight"@ == ".self_attn.q_proj.weight"@,
        "."@ + "self_attn.v_proj"@ + ".weight"@ == ".self_attn.v_proj.weight"@,
{
    reveal_strlit(".");
    reveal_strlit(".weight");
    reveal_strlit("input_layernorm");
    reveal_strlit(".input_layernorm.weight");
    assert("."@ + "input_layernorm"@ + ".weight"@ =~= ".input_layernorm.weight"@);
    reveal_strlit("mlp.down_proj");
    reveal_strlit(".mlp.down_proj.weight");
    assert("."@ + "mlp.down_proj"@ + ".weight"@ =~= ".mlp.down_proj.weight"@);
    reveal_strlit("mlp.gate_proj");
    reveal_strlit(".mlp.gate_proj.weight");
    assert("."@ + "mlp.gate_proj"@ + ".weight"@ =~= ".mlp.gate_proj.weight"@);
    reveal_strlit("mlp.up_proj");
    reveal_strlit(".mlp.up_proj.weight");
    assert("."@ + "mlp.up_proj"@ + ".weight"@ =~= ".mlp.up_proj.weight"@);
    reveal_strlit("post_attention_layernorm");
    reveal_strlit(".post_attention_layernorm.weight");
    assert("."@ + "post_attention_layernorm"@ + ".weight"@ =~= ".post_attention_layernorm.weight"@);
    reveal_strlit("post_feedforward_layernorm");
    reveal_strlit(".post_feedforward_layernorm.weight");
    assert("."@ + "post_feedforward_layernorm"@ + ".weight"@
        =~= ".post_feedforward_layernorm.weight"@);
    reveal_strlit("pre_feedforward_layernorm");
    reveal_strlit(".pre_feedforward_layernorm.weight");
    assert("."@ + "pre_feedforward_layernorm"@ + ".weight"@
        =~= ".pre_feedforward_layernorm.weight"@);
    reveal_strlit("self_attn.k_norm");
    reveal_strlit(".self_attn.k_norm.weight");
    assert("."@ + "self_attn.k_norm"@ + ".weight"@ =~= ".self_attn.k_norm.weight"@);
    reveal_strlit("self_attn.k_proj");
    reveal_strlit(".self_attn.k_proj.weight");
    assert("."@ + "self_attn.k_proj"@ + ".weight"@ =~= ".self_attn.k_proj.weight"@);
    reveal_strlit("self_attn.o_proj");
    reveal_strlit(".self_attn.o_proj.weight");
    assert("."@ + "self_attn.o_proj"@ + ".weight"@ =~= ".self_attn.o_proj.weight"@);
    reveal_strlit("self_attn.q_norm");
    reveal_strlit(".self_attn.q_norm.weight");
    assert("."@ + "self_attn.q_norm"@ + ".weight"@ =~= ".self_attn.q_norm.weight"@);
    reveal_strlit("self_attn.q_proj");
    reveal_strlit(".self_attn.q_proj.weight");
    assert("."@ + "self_attn.q_proj"@ + ".weight"@ =~= ".self_attn.q_proj.weight"@);
    reveal_strlit("self_attn.v_proj");
    reveal_strlit(".self_attn.v_proj.weight");
    assert("."@ + "self_attn.v_proj"@ + ".weight"@ =~= ".self_attn.v_proj.weight"@);
}

/// Whether a standard block computes with the tensors of a layer of a source.
pub open spec fn standard_from<S: WeightSource>(b: StandardView, src: S, layer: nat) -> bool {
    &&& reads_singles(b.ln1.w, src, layer_tensor(layer, ".input_layernorm.weight"@))
    &&& reads_halves(b.attn.q_proj.w, src, layer_tensor(layer, ".self_attn.q_proj.weight"@))
    &&& reads_halves(b.attn.k_proj.w, src, layer_tensor(layer, ".self_attn.k_proj.weight"@))
    &&& reads_halves(b.attn.v_proj.w, src, layer_tensor(layer, ".self_attn.v_proj.weight"@))
    &&& reads_halves(b.attn.o_proj.w, src, layer_tensor(layer, ".self_attn.o_proj.weight"@))
    &&& reads_singles(b.ln2.w, src, layer_tensor(layer, ".post_attention_layernorm.weight"@))
    &&& reads_halves(b.mlp.gate.w, src, layer_tensor(layer, ".mlp.gate_proj.weight"@))
    &&& reads_halves(b.mlp.up.w, src, layer_tensor(layer, ".mlp.up_proj.weight"@))
    &&& reads_halves(b.mlp.down.w, src, layer_tensor(layer, ".mlp.down_proj.weight"@))
    &&& b.attn.q_norm is Some ==> reads_singles(
        b.attn.q_norm->Some_0.w,
        src,
        layer_tensor(layer, ".self_attn.q_norm.weight"@),
    )
    &&& b.attn.k_norm is Some ==> reads_singles(
        b.attn.k_norm->Some_0.w,
        src,
        layer_tensor(layer, ".self_attn.k_norm.weight"@),
    )
}

proof fn lemma_standard_from<S: WeightSource>(b: StandardView, src: S, layer: nat, qk: bool)
    requires
        b == source_block(src, layer, qk, b.attn.scale, b.rope),
    ensures
        standard_from(b, src, layer),
{
    lemma_tails();
    lemma_singles_read(src, layer, "input_layernorm"@, ".input_layernorm.weight"@);
    lemma_halves_read(src, layer, "self_attn.q_proj"@, ".self_attn.q_proj.weight"@);
    lemma_halves_read(src, layer, "self_attn.k_proj"@, ".self_attn.k_proj.weight"@);
    lemma_halves_read(src, layer, "self_attn.v_proj"@, ".self_attn.v_proj.weight"@);
    lemma_halves_read(src, layer, "self_attn.o_proj"@, ".self_attn.o_proj.weight"@);
    lemma_singles_read(
        src,
        layer,
        "post_attention_layernorm"@,
        ".post_attention_layernorm.weight"@,
    );
    lemma_halves_read(src, layer, "mlp.gate_proj"@, ".mlp.gate_proj.weight"@);
    lemma_halves_read(src, layer, "mlp.up_proj"@, ".mlp.up_proj.weight"@);
    lemma_halves_read(src, layer, "mlp.down_proj"@, ".mlp.down_proj.weight"@);
    lemma_singles_read(src, layer, "self_attn.q_norm"@, ".self_attn.q_norm.weight"@);
    lemma_singles_read(src, layer, "self_attn.k_norm"@, ".self_attn.k_norm.weight"@);
}

/// What a loaded standard decoder computes with: the embedding table, the final norm and the layers
/// are the source's tensors of their names, layer by layer; the logits come from the source's own
/// output weights where it lists them, else from the embedding table; the feed-forward blocks gate
/// with SiLU; and queries and keys are normalized where the model has such norms and nowhere else.
pub proof fn lemma_decoder_weights<S: WeightSource>(
    m: LanguageModel<StandardBlock>,
    src: S,
    opts: DecoderOpts,
    max_seq: usize,
    numbers: DecoderNumbers,
    d: DeviceView,
    layer: int,
)
    requires
        is_decoder(m, src, opts, max_seq, numbers, d),
        0 <= layer < m.blocks@.len(),
    ensures
        m.blocks@.len() == src.spec_config().n_layers,
        reads_halves(m.embed_w.in_dev(d), src, "model.embed_tokens.weight"@),
        src.spec_names().contains("lm_head.weight"@) ==> reads_halves(
            m.head(d),
            src,
            "lm_head.weight"@,
        ),
        !src.spec_names().contains("lm_head.weight"@) ==> reads_halves(
            m.head(d),
            src,
            "model.embed_tokens.weight"@,
        ),
        reads_singles(m.norm.on(d).w, src, "model.norm.weight"@),
        m.norm.on(d).eps == src.spec_config().rms_eps,
        m.embed_scale is None,
        m.logit_softcap is None,
        ({
            let b = m.blocks@[layer].on(d);
            &&& standard_from(b, src, layer as nat)
            &&& b.attn.q_norm is Some <==> opts.has_qk_norm
            &&& b.attn.k_norm is Some <==> opts.has_qk_norm
            &&& b.attn.v_norm is None
            &&& b.attn.n_heads == src.spec_config().n_heads
            &&& b.attn.n_kv_heads == src.spec_config().n_kv_heads
            &&& b.attn.head_dim == src.spec_config().head_dim
            &&& b.attn.scale == numbers.scale
            &&& b.mlp.activation == Activation::Swiglu
            &&& b.ln1.eps == src.spec_config().rms_eps
            &&& b.ln2.eps == src.spec_config().rms_eps
            &&& opts.has_qk_norm ==> b.attn.q_norm->Some_0.eps == src.spec_config().rms_eps
                && b.attn.k_norm->Some_0.eps == src.spec_config().rms_eps
            &&& b.rope.cos == Term::Words(numbers.cos@)
            &&& b.rope.sin == Term::Words(numbers.sin@)
        }),
{
    lemma_halves_named(src, "model.embed_tokens.weight"@);
    lemma_halves_named(src, "lm_head.weight"@);
    lemma_singles_named(src, "model.norm.weight"@);
    let b = m.blocks@[layer].on(d);
    lemma_standard_from(b, src, layer as nat, opts.has_qk_norm);
}

/// Whether the sizes of a configuration fit together, with heads of `hd` numbers, and 32 bits hold
/// what `rows` rows from `base` on ask for.
pub open spec fn sizes_fit(cfg: ConfigView, hd: int, rows: int, base: int) -> bool {
    let (h, hkv) = (cfg.n_heads as int, cfg.n_kv_heads as int);
    &&& 0 < h
    &&& 0 < hkv
    &&& h % hkv == 0
    &&& 0 < hd
    &&& hd % 2 == 0
    &&& 0 < cfg.hidden
    &&& narrow(cfg.hidden as int)
    &&& narrow(cfg.vocab as int)
    &&& narrow(cfg.intermediate as int)
    &&& narrow(h)
    &&& narrow(hkv)
    &&& narrow(hd)
    &&& narrow(h * hd)
    &&& narrow(hkv * hd)
    &&& 0 < rows
    &&& narrow(rows)
    &&& 0 <= base
    &&& narrow(base)
    &&& narrow(rows * cfg.hidden)
    &&& narrow(rows * cfg.intermediate)
    &&& narrow(rows * h)
    &&& narrow(h * rows)
    &&& narrow(rows * hkv)
    &&& narrow(rows * h * (hd / 2))
    &&& narrow(rows * hkv * (hd / 2))
    &&& narrow(hkv * rows * hd)
}

/// A loaded standard decoder of a configuration whose sizes fit together computes each row from its
/// own tokens: what holds of sequences holds of it.
pub proof fn lemma_decoder_regular<S: WeightSource>(
    m: LanguageModel<StandardBlock>,
    src: S,
    opts: DecoderOpts,
    max_seq: usize,
    numbers: DecoderNumbers,
    d: DeviceView,
    rows: int,
    base: int,
)
    requires
        is_decoder(m, src, opts, max_seq, numbers, d),
        sizes_fit(src.spec_config(), src.spec_config().head_dim as int, rows, base),
    ensures
        regular_model(m, d, rows, base),
{
    assert forall|l: int| 0 <= l < m.blocks@.len() implies (#[trigger] m.blocks@[l]).regular(
        d,
        rows,
        base,
    ) && m.blocks@[l].width() == m.cfg.hidden by {
        let b = m.blocks@[l].on(d);
        assert(regular_standard(b, rows, base));
    }
}

/// Whether a Gemma 4 block computes with the tensors of a layer of a source.
pub open spec fn gemma_from<S: WeightSource>(b: GemmaView, src: S, layer: nat) -> bool {
    &&& b.attn.q_norm is Some
    &&& b.attn.k_norm is Some
    &&& reads_singles(b.input_ln.w, src, layer_tensor(layer, ".input_layernorm.weight"@))
    &&& reads_halves(b.attn.q_proj.w, src, layer_tensor(layer, ".self_attn.q_proj.weight"@))
    &&& reads_halves(b.attn.k_proj.w, src, layer_tensor(layer, ".self_attn.k_proj.weight"@))
    &&& reads_halves(b.attn.v_proj.w, src, layer_tensor(layer, ".self_attn.v_proj.weight"@))
    &&& reads_halves(b.attn.o_proj.w, src, layer_tensor(layer, ".self_attn.o_proj.weight"@))
    &&& reads_singles(
        b.attn.q_norm->Some_0.w,
        src,
        layer_tensor(layer, ".self_attn.q_norm.weight"@),
    )
    &&& reads_singles(
        b.attn.k_norm->Some_0.w,
        src,
        layer_tensor(layer, ".self_attn.k_norm.weight"@),
    )
    &&& reads_singles(
        b.post_attn_ln.w,
        src,
        layer_tensor(layer, ".post_attention_layernorm.weight"@),
    )
    &&& reads_singles(b.pre_ff_ln.w, src, layer_tensor(layer, ".pre_feedforward_layernorm.weight"@))
    &&& reads_singles(
        b.post_ff_ln.w,
        src,
        layer_tensor(layer, ".post_feedforward_layernorm.weight"@),
    )
    &&& reads_halves(b.mlp.gate.w, src, layer_tensor(layer, ".mlp.gate_proj.weight"@))
    &&& reads_halves(b.mlp.up.w, src, layer_tensor(layer, ".mlp.up_proj.weight"@))
    &&& reads_halves(b.mlp.down.w, src, layer_tensor(layer, ".mlp.down_proj.weight"@))
    &&& (src.spec_raw(layer_tensor(layer, ".layer_scalar"@)) matches Some(raw) ==> (floats(
        raw,
    ) is Ok && floats(raw)->Ok_0.len() > 0 ==> b.layer_scalar == floats(raw)->Ok_0[0]))
}

proof fn lemma_gemma_from<S: WeightSource>(
    b: GemmaView,
    src: S,
    layer: nat,
    g: (RopeView, RopeView),
)
    requires
        b == source_gemma(src, layer, g.0, g.1),
    ensures
        gemma_from(b, src, layer),
{
    lemma_tails();
    assert(scalar_name(layer) == layer_tensor(layer, ".layer_scalar"@));
    lemma_singles_read(src, layer, "input_layernorm"@, ".input_layernorm.weight"@);
    lemma_halves_read(src, layer, "self_attn.q_proj"@, ".self_attn.q_proj.weight"@);
    lemma_halves_read(src, layer, "self_attn.k_proj"@, ".self_attn.k_proj.weight"@);
    lemma_halves_read(src, layer, "self_attn.v_proj"@, ".self_attn.v_proj.weight"@);
    lemma_halves_read(src, layer, "self_attn.o_proj"@, ".self_attn.o_proj.weight"@);
    lemma_singles_read(src, layer, "self_attn.q_norm"@, ".self_attn.q_norm.weight"@);
    lemma_singles_read(src, layer, "self_attn.k_norm"@, ".self_attn.k_norm.weight"@);
    lemma_singles_read(
        src,
        layer,
        "post_attention_layernorm"@,
        ".post_attention_layernorm.weight"@,
    );
    lemma_singles_read(
        src,
        layer,
        "pre_feedforward_layernorm"@,
        ".pre_feedforward_layernorm.weight"@,
    );
    lemma_singles_read(
        src,
        layer,
        "post_feedforward_layernorm"@,
        ".post_feedforward_layernorm.weight"@,
    );
    lemma_halves_read(src, layer, "mlp.gate_proj"@, ".mlp.gate_proj.weight"@);
    lemma_halves_read(src, layer, "mlp.up_proj"@, ".mlp.up_proj.weight"@);
    lemma_halves_read(src, layer, "mlp.down_proj"@, ".mlp.down_proj.weight"@);
}

/// What a loaded Gemma 4 model computes with: the embedding table, which gives the logits too, the
/// final norm and the layers are the source's tensors of their names, layer by layer. Queries and
/// keys are normalized with weights and values without; attention is not scaled; the feed-forward
/// blocks gate with GELU. A layer whose own entry says so attends globally, with the global head
/// size and tables, every other locally.
pub proof fn lemma_gemma_weights<S: WeightSource>(
    m: LanguageModel<GemmaBlock>,
    src: S,
    max_seq: usize,
    numbers: GemmaNumbers,
    d: DeviceView,
    layer: int,
)
    requires
        is_gemma(m, src, max_seq, numbers, d),
        src.spec_config().settings().layer_types is Some,
        src.spec_config().settings().global_head_dim is Some,
        0 <= layer < m.blocks@.len(),
    ensures
        m.blocks@.len() == src.spec_config().n_layers,
        reads_halves(m.embed_w.in_dev(d), src, "model.embed_tokens.weight"@),
        reads_halves(m.head(d), src, "model.embed_tokens.weight"@),
        reads_singles(m.norm.on(d).w, src, "model.norm.weight"@),
        m.norm.on(d).eps == src.spec_config().rms_eps,
        m.embed_scale == Some(numbers.embed_scale),
        ({
            let b = m.blocks@[layer].on(d);
            let cfg = src.spec_config();
            let t = cfg.settings().layer_types->Some_0;
            let global = layer < t.len() && t[layer] == Some("full_attention"@);
            &&& gemma_from(b, src, layer as nat)
            &&& exact(b.attn.scale) == pow2(149)
            &&& b.attn.v_norm is Some
            &&& forall|i: int|
                0 <= i < b.attn.head_dim ==> #[trigger] value(b.attn.v_norm->Some_0.w, i)
                    == Number::Word(b.attn.scale)
            &&& b.mlp.activation == Activation::Geglu
            &&& b.attn.n_heads == cfg.n_heads
            &&& b.attn.n_kv_heads == cfg.n_kv_heads
            &&& global ==> b.attn.head_dim == cfg.settings().global_head_dim->Some_0 as usize
                && b.rope.cos == Term::Words(numbers.global_cos@) && b.rope.sin == Term::Words(
                numbers.global_sin@,
            )
            &&& !global ==> b.attn.head_dim == cfg.head_dim && b.rope.cos == Term::Words(
                numbers.local_cos@,
            ) && b.rope.sin == Term::Words(numbers.local_sin@)
            &&& b.rope.head_dim == b.attn.head_dim
            &&& m.head_dims@[layer] == b.attn.head_dim
            &&& b.input_ln.eps == cfg.rms_eps
            &&& b.post_attn_ln.eps == cfg.rms_eps
            &&& b.pre_ff_ln.eps == cfg.rms_eps
            &&& b.post_ff_ln.eps == cfg.rms_eps
            &&& b.attn.q_norm->Some_0.eps == cfg.rms_eps
            &&& b.attn.k_norm->Some_0.eps == cfg.rms_eps
            &&& b.attn.v_norm->Some_0.eps == cfg.rms_eps
        }),
{
    lemma_halves_named(src, "model.embed_tokens.weight"@);
    lemma_singles_named(src, "model.norm.weight"@);
    let b = m.blocks@[layer].on(d);
    let cfg = src.spec_config();
    lemma_gemma_from(
        b,
        src,
        layer as nat,
        (local_rope(cfg, numbers), global_rope(cfg, numbers)),
    );
    lemma_one();
    reveal(value);
}

/// The number one is one.
pub proof fn lemma_one()
    ensures
        exact(ONE) == pow2(149),
{
    lemma2_to64();
    lemma_pow2_adds(23, 126);
}

/// A loaded Gemma 4 model of a configuration whose sizes fit together computes each row from its
/// own tokens: what holds of sequences holds of it.
pub proof fn lemma_gemma_regular<S: WeightSource>(
    m: LanguageModel<GemmaBlock>,
    src: S,
    max_seq: usize,
    numbers: GemmaNumbers,
    d: DeviceView,
    rows: int,
    base: int,
)
    requires
        is_gemma(m, src, max_seq, numbers, d),
        sizes_fit(src.spec_config(), src.spec_config().head_dim as int, rows, base),
        sizes_fit(
            src.spec_config(),
            global_head_dim(src.spec_config().settings()) as int,
            rows,
            base,
        ),
    ensures
        regular_model(m, d, rows, base),
{
    assert forall|l: int| 0 <= l < m.blocks@.len() implies (#[trigger] m.blocks@[l]).regular(
        d,
        rows,
        base,
    ) && m.blocks@[l].width() == m.cfg.hidden by {
        let b = m.blocks@[l].on(d);
        assert(regular_gemma(b, rows, base));
    }
}

/// Which model an architecture has: Qwen 3 is a standard decoder that normalizes queries and keys,
/// Llama and Mistral one that does not, and Gemma 4 a model of its own. No other is loaded.
pub proof fn lemma_architectures<S: WeightSource>(
    src: S,
    max_seq: usize,
    numbers: Numbers,
    m: Model,
    a: DeviceView,
    b: DeviceView,
)
    requires
        loads_model(src, max_seq, numbers, Ok(m), a, b),
    ensures
        ({
            let arch = src.spec_config().arch;
            &&& arch == "qwen3"@ || arch == "llama"@ || arch == "mistral"@ || arch == "gemma4"@
                || arch == "gemma4_text"@
            &&& m is Gemma4 <==> arch == "gemma4"@ || arch == "gemma4_text"@
            &&& m is Decoder <==> arch == "qwen3"@ || arch == "llama"@ || arch == "mistral"@
            &&& m is Decoder ==> forall|l: int|
                0 <= l < m->Decoder_0.blocks@.len() ==> {
                    let attn = (#[trigger] m->Decoder_0.blocks@[l]).on(b).attn;
                    &&& attn.q_norm is Some <==> arch == "qwen3"@
                    &&& attn.k_norm is Some <==> arch == "qwen3"@
                }
        }),
{
    reveal_strlit("qwen3");
    reveal_strlit("llama");
    reveal_strlit("mistral");
    reveal_strlit("gemma4");
    reveal_strlit("gemma4_text");
    assert("qwen3"@[0] == 'q' && "llama"@[0] == 'l' && "mistral"@[0] == 'm');
    assert("gemma4"@[0] == 'g' && "gemma4_text"@[0] == 'g');
}

} // verus!
