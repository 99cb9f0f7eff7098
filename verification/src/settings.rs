//! What a model configuration says of its document: each setting is found where the document has
//! it, and a setting that the document leaves out has its default.

use vstd::arithmetic::power2::*;
use vstd::prelude::*;

use crate::config::{
    extra_of, hf_config, ConfigView, ExtraView, DEFAULT_ROPE_THETA, DEFAULT_ROPE_THETA_DOUBLE,
};
use crate::error::ErrorView;
use crate::float::narrowed;
use crate::gguf::{gguf_config, meta_f32, meta_text, meta_u64, setting, MetaView};
use crate::json::{parsed_json, NodeView};
use crate::rounding::{
    exact, exact_double, finite_double, lemma_narrowed, lemma_of_int, rounds_to,
};
use crate::table::{entry, lemma_entry};
use crate::text::dec;

verus! {

/// What a JSON document holds, by pointer.
pub type Document = Map<Seq<char>, NodeView>;

/// Whether `pointer` reaches the count `n` in a document.
pub open spec fn counts(m: Document, pointer: Seq<char>, n: usize) -> bool {
    &&& m.dom().contains(pointer)
    &&& m[pointer] matches NodeView::Number(x) && x.unsigned == Some(n as u64)
}

/// Whether `pointer` reaches the real number `x` in a document.
pub open spec fn amounts(m: Document, pointer: Seq<char>, x: u64) -> bool {
    &&& m.dom().contains(pointer)
    &&& m[pointer] matches NodeView::Number(y) && y.double == Some(x)
}

/// Whether a document leaves out what `pointer` would reach, or has a null there.
pub open spec fn lacks(m: Document, pointer: Seq<char>) -> bool {
    m.dom().contains(pointer) ==> m[pointer] is Null
}

/// Whether a document has a switch in this position, one that it leaves out being off.
pub open spec fn switches(m: Document, pointer: Seq<char>, on: bool) -> bool {
    if m.dom().contains(pointer) {
        m[pointer] == NodeView::Bool(on)
    } else {
        !on
    }
}

/// Whether `pointer` reaches the text `s` in a document.
pub open spec fn says(m: Document, pointer: Seq<char>, s: Seq<char>) -> bool {
    m.dom().contains(pointer) && m[pointer] == NodeView::Text(s)
}

proof fn lemma_pointers()
    ensures
        "/"@ + "model_type"@ == "/model_type"@,
        "/"@ + "hidden_size"@ == "/hidden_size"@,
        "/"@ + "num_hidden_layers"@ == "/num_hidden_layers"@,
        "/"@ + "num_attention_heads"@ == "/num_attention_heads"@,
        "/"@ + "num_key_value_heads"@ == "/num_key_value_heads"@,
        "/"@ + "head_dim"@ == "/head_dim"@,
        "/"@ + "intermediate_size"@ == "/intermediate_size"@,
        "/"@ + "vocab_size"@ == "/vocab_size"@,
        "/"@ + "rms_norm_eps"@ == "/rms_norm_eps"@,
        "/"@ + "rope_theta"@ == "/rope_theta"@,
        "/"@ + "rope_parameters"@ == "/rope_parameters"@,
        "/rope_parameters"@ + "/rope_theta"@ == "/rope_parameters/rope_theta"@,
        "/"@ + "tie_word_embeddings"@ == "/tie_word_embeddings"@,
        "/"@ + "max_position_embeddings"@ == "/max_position_embeddings"@,
{
    reveal_strlit("/");
    reveal_strlit("model_type");
    reveal_strlit("/model_type");
    assert("/"@ + "model_type"@ =~= "/model_type"@);
    reveal_strlit("hidden_size");
    reveal_strlit("/hidden_size");
    assert("/"@ + "hidden_size"@ =~= "/hidden_size"@);
    reveal_strlit("num_hidden_layers");
    reveal_strlit("/num_hidden_layers");
    assert("/"@ + "num_hidden_layers"@ =~= "/num_hidden_layers"@);
    reveal_strlit("num_attention_heads");
    reveal_strlit("/num_attention_heads");
    assert("/"@ + "num_attention_heads"@ =~= "/num_attention_heads"@);
    reveal_strlit("num_key_value_heads");
    reveal_strlit("/num_key_value_heads");
    assert("/"@ + "num_key_value_heads"@ =~= "/num_key_value_heads"@);
    reveal_strlit("head_dim");
    reveal_strlit("/head_dim");
    assert("/"@ + "head_dim"@ =~= "/head_dim"@);
    reveal_strlit("intermediate_size");
    reveal_strlit("/intermediate_size");
    assert("/"@ + "intermediate_size"@ =~= "/intermediate_size"@);
    reveal_strlit("vocab_size");
    reveal_strlit("/vocab_size");
    assert("/"@ + "vocab_size"@ =~= "/vocab_size"@);
    reveal_strlit("rms_norm_eps");
    reveal_strlit("/rms_norm_eps");
    assert("/"@ + "rms_norm_eps"@ =~= "/rms_norm_eps"@);
    reveal_strlit("rope_theta");
    reveal_strlit("/rope_theta");
    assert("/"@ + "rope_theta"@ =~= "/rope_theta"@);
    reveal_strlit("rope_parameters");
    reveal_strlit("/rope_parameters");
    assert("/"@ + "rope_parameters"@ =~= "/rope_parameters"@);
    reveal_strlit("/rope_parameters/rope_theta");
    assert("/rope_parameters"@ + "/rope_theta"@ =~= "/rope_parameters/rope_theta"@);
    reveal_strlit("tie_word_embeddings");
    reveal_strlit("/tie_word_embeddings");
    assert("/"@ + "tie_word_embeddings"@ =~= "/tie_word_embeddings"@);
    reveal_strlit("max_position_embeddings");
    reveal_strlit("/max_position_embeddings");
    assert("/"@ + "max_position_embeddings"@ =~= "/max_position_embeddings"@);
}

/// Whether a configuration has what an object document `m` says of it.
pub open spec fn mirrors(c: ConfigView, m: Document) -> bool {
    &&& counts(m, "/hidden_size"@, c.hidden)
    &&& counts(m, "/num_hidden_layers"@, c.n_layers)
    &&& counts(m, "/num_attention_heads"@, c.n_heads)
    &&& counts(m, "/intermediate_size"@, c.intermediate)
    &&& counts(m, "/vocab_size"@, c.vocab)
    &&& counts(m, "/max_position_embeddings"@, c.max_seq)
    &&& lacks(m, "/num_key_value_heads"@) || counts(m, "/num_key_value_heads"@, c.n_kv_heads)
    &&& lacks(m, "/num_key_value_heads"@) ==> c.n_kv_heads == c.n_heads
    &&& lacks(m, "/head_dim"@) || counts(m, "/head_dim"@, c.head_dim)
    &&& lacks(m, "/head_dim"@) ==> c.head_dim * c.n_heads <= c.hidden < (c.head_dim + 1) * c.n_heads
    &&& lacks(m, "/model_type"@) || says(m, "/model_type"@, c.arch)
    &&& lacks(m, "/model_type"@) ==> c.arch == "unknown"@
    &&& switches(m, "/tie_word_embeddings"@, c.tie_word_embeddings)
    &&& exists|eps: u64| #[trigger]
        amounts(m, "/rms_norm_eps"@, eps) && c.rms_eps == narrowed(eps)
    &&& forall|theta: u64| #[trigger]
        amounts(m, "/rope_theta"@, theta) ==> c.rope_theta == narrowed(theta)
    &&& forall|theta: u64| #[trigger]
        amounts(m, "/rope_parameters/rope_theta"@, theta) && lacks(m, "/rope_theta"@)
            && m.dom().contains("/rope_parameters"@) && m["/rope_parameters"@] is Object
            ==> c.rope_theta == narrowed(theta)
    &&& lacks(m, "/rope_theta"@) && lacks(m, "/rope_parameters"@) ==> c.rope_theta == narrowed(
        DEFAULT_ROPE_THETA_DOUBLE,
    )
    &&& c.extra == m
}

/// A configuration that was read from an object mirrors it: every setting is the one under its own
/// name, and the settings that the object leaves out have their defaults.
pub proof fn lemma_configuration_mirrors(text: Seq<char>, m: Document, c: ConfigView)
    requires
        parsed_json(text) == Ok::<Document, Seq<char>>(m),
        m.dom().contains(""@),
        m[""@] is Object,
        hf_config(text) == Ok::<ConfigView, ErrorView>(c),
    ensures
        mirrors(c, m),
{
    lemma_pointers();
    let eps = (m["/rms_norm_eps"@]->Number_0).double->Some_0;
    assert(amounts(m, "/rms_norm_eps"@, eps) && c.rms_eps == narrowed(eps));
    if lacks(m, "/head_dim"@) {
        lemma_shared_out(c.hidden as int, c.n_heads as int);
    }
}

/// An object that has every setting a model needs is read, whatever else it holds.
pub proof fn lemma_configuration_read(
    text: Seq<char>,
    m: Document,
    sizes: (usize, usize, usize, usize, usize, usize),
    eps: u64,
    tie: bool,
)
    requires
        parsed_json(text) == Ok::<Document, Seq<char>>(m),
        m.dom().contains(""@),
        m[""@] is Object,
        counts(m, "/hidden_size"@, sizes.0),
        counts(m, "/num_hidden_layers"@, sizes.1),
        counts(m, "/num_attention_heads"@, sizes.2),
        sizes.2 > 0,
        counts(m, "/intermediate_size"@, sizes.3),
        counts(m, "/vocab_size"@, sizes.4),
        counts(m, "/max_position_embeddings"@, sizes.5),
        amounts(m, "/rms_norm_eps"@, eps),
        switches(m, "/tie_word_embeddings"@, tie),
        lacks(m, "/model_type"@) || m["/model_type"@] is Text,
        lacks(m, "/num_key_value_heads"@) || exists|n: usize| counts(
            m,
            "/num_key_value_heads"@,
            n,
        ),
        lacks(m, "/head_dim"@) || exists|n: usize| counts(m, "/head_dim"@, n),
        lacks(m, "/rope_theta"@) || exists|x: u64| amounts(m, "/rope_theta"@, x),
        lacks(m, "/rope_parameters"@) || m["/rope_parameters"@] is Object,
        lacks(m, "/rope_parameters/rope_theta"@) || exists|x: u64| amounts(
            m,
            "/rope_parameters/rope_theta"@,
            x,
        ),
    ensures
        hf_config(text) is Ok,
{
    lemma_pointers();
}

/// A document without one of the settings that a model needs is refused.
pub proof fn lemma_configuration_refused(text: Seq<char>, m: Document, key: Seq<char>)
    requires
        parsed_json(text) == Ok::<Document, Seq<char>>(m),
        m.dom().contains(""@) ==> !(m[""@] is Array),
        lacks(m, key) || m[key] is Text || m[key] is Bool,
        key == "/hidden_size"@ || key == "/num_hidden_layers"@ || key == "/num_attention_heads"@
            || key == "/intermediate_size"@ || key == "/vocab_size"@ || key
            == "/max_position_embeddings"@ || key == "/rms_norm_eps"@,
    ensures
        hf_config(text) is Err,
{
    lemma_pointers();
}

/// Metadata pairs of a GGUF file, by their keys.
pub type Metadata = Seq<(Seq<char>, MetaView)>;

/// Whether the last pair of this key, which counts, holds `v`.
pub open spec fn holds(meta: Metadata, key: Seq<char>, v: MetaView) -> bool {
    exists|i: int|
        0 <= i < meta.len() && (#[trigger] meta[i]) == (key, v) && (forall|j: int|
            i < j < meta.len() ==> (#[trigger] meta[j]).0 != key)
}

/// Whether no pair has this key.
pub open spec fn without(meta: Metadata, key: Seq<char>) -> bool {
    forall|i: int| 0 <= i < meta.len() ==> (#[trigger] meta[i]).0 != key
}

proof fn lemma_held(meta: Metadata, key: Seq<char>)
    ensures
        without(meta, key) ==> entry(meta, key) is None,
        forall|v: MetaView| holds(meta, key, v) ==> entry(meta, key) == Some(v),
{
    if without(meta, key) {
        lemma_entry(meta, key, -1);
    }
    assert forall|v: MetaView| holds(meta, key, v) implies entry(meta, key) == Some(v) by {
        let i = choose|i: int|
            0 <= i < meta.len() && (#[trigger] meta[i]) == (key, v) && (forall|j: int|
                i < j < meta.len() ==> (#[trigger] meta[j]).0 != key);
        lemma_entry(meta, key, i);
    }
}

proof fn lemma_keys(arch: Seq<char>)
    ensures
        setting(arch, "embedding_length"@) == arch + ".embedding_length"@,
        setting(arch, "block_count"@) == arch + ".block_count"@,
        setting(arch, "attention.head_count"@) == arch + ".attention.head_count"@,
        setting(arch, "attention.head_count_kv"@) == arch + ".attention.head_count_kv"@,
        setting(arch, "attention.key_length"@) == arch + ".attention.key_length"@,
        setting(arch, "feed_forward_length"@) == arch + ".feed_forward_length"@,
        setting(arch, "vocab_size"@) == arch + ".vocab_size"@,
        setting(arch, "attention.layer_norm_rms_epsilon"@) == arch
            + ".attention.layer_norm_rms_epsilon"@,
        setting(arch, "rope.freq_base"@) == arch + ".rope.freq_base"@,
        setting(arch, "context_length"@) == arch + ".context_length"@,
{
    reveal_strlit(".");
    reveal_strlit("embedding_length");
    reveal_strlit(".embedding_length");
    assert(setting(arch, "embedding_length"@) =~= arch + ".embedding_length"@);
    reveal_strlit("block_count");
    reveal_strlit(".block_count");
    assert(setting(arch, "block_count"@) =~= arch + ".block_count"@);
    reveal_strlit("attention.head_count");
    reveal_strlit(".attention.head_count");
    assert(setting(arch, "attention.head_count"@) =~= arch + ".attention.head_count"@);
    reveal_strlit("attention.head_count_kv");
    reveal_strlit(".attention.head_count_kv");
    assert(setting(arch, "attention.head_count_kv"@) =~= arch + ".attention.head_count_kv"@);
    reveal_strlit("attention.key_length");
    reveal_strlit(".attention.key_length");
    assert(setting(arch, "attention.key_length"@) =~= arch + ".attention.key_length"@);
    reveal_strlit("feed_forward_length");
    reveal_strlit(".feed_forward_length");
    assert(setting(arch, "feed_forward_length"@) =~= arch + ".feed_forward_length"@);
    reveal_strlit("vocab_size");
    reveal_strlit(".vocab_size");
    assert(setting(arch, "vocab_size"@) =~= arch + ".vocab_size"@);
    reveal_strlit("attention.layer_norm_rms_epsilon");
    reveal_strlit(".attention.layer_norm_rms_epsilon");
    assert(setting(arch, "attention.layer_norm_rms_epsilon"@) =~= arch
        + ".attention.layer_norm_rms_epsilon"@);
    reveal_strlit("rope.freq_base");
    reveal_strlit(".rope.freq_base");
    assert(setting(arch, "rope.freq_base"@) =~= arch + ".rope.freq_base"@);
    reveal_strlit("context_length");
    reveal_strlit(".context_length");
    assert(setting(arch, "context_length"@) =~= arch + ".context_length"@);
}

/// Whether a size of a configuration is the count that the metadata have under `key`, a signed one
/// included.
pub open spec fn sized_by(meta: Metadata, key: Seq<char>, n: usize) -> bool {
    forall|m: usize|
        (#[trigger] holds(meta, key, MetaView::U64(m as u64)) || m <= i64::MAX && holds(
            meta,
            key,
            MetaView::I64(m as i64),
        )) ==> n == m
}

/// Whether a configuration has what metadata say of it.
pub open spec fn mirrors_metadata(c: ConfigView, meta: Metadata, has_output: bool) -> bool {
    &&& forall|s: Seq<char>| #[trigger]
        holds(meta, "general.architecture"@, MetaView::Text(s)) ==> c.arch == s
    &&& sized_by(meta, c.arch + ".embedding_length"@, c.hidden)
    &&& sized_by(meta, c.arch + ".block_count"@, c.n_layers)
    &&& sized_by(meta, c.arch + ".attention.head_count"@, c.n_heads)
    &&& sized_by(meta, c.arch + ".attention.head_count_kv"@, c.n_kv_heads)
    &&& sized_by(meta, c.arch + ".attention.key_length"@, c.head_dim)
    &&& sized_by(meta, c.arch + ".feed_forward_length"@, c.intermediate)
    &&& sized_by(meta, c.arch + ".vocab_size"@, c.vocab)
    &&& sized_by(meta, c.arch + ".context_length"@, c.max_seq)
    &&& forall|x: u32| #[trigger]
        holds(meta, c.arch + ".attention.layer_norm_rms_epsilon"@, MetaView::Single(x))
            ==> c.rms_eps == x
    &&& forall|x: u32| #[trigger]
        holds(meta, c.arch + ".rope.freq_base"@, MetaView::Single(x)) ==> c.rope_theta == x
    &&& without(meta, c.arch + ".rope.freq_base"@) ==> exact(c.rope_theta) == 10_000 * pow2(149)
    &&& without(meta, c.arch + ".attention.head_count_kv"@) ==> c.n_kv_heads == c.n_heads
    &&& without(meta, c.arch + ".attention.key_length"@) ==> c.head_dim * c.n_heads <= c.hidden < (
    c.head_dim + 1) * c.n_heads
    &&& without(meta, c.arch + ".vocab_size"@) ==> forall|tokens: Seq<MetaView>|
        tokens.len() <= usize::MAX && #[trigger] holds(
            meta,
            "tokenizer.ggml.tokens"@,
            MetaView::Items(tokens),
        ) ==> c.vocab == tokens.len()
    &&& c.tie_word_embeddings == !has_output
}

/// A configuration that was read from metadata mirrors them: every size is the one under its own
/// key, what is left out has its default, and the embeddings are tied where there are no output
/// weights.
pub proof fn lemma_metadata_mirrored(meta: Metadata, has_output: bool, c: ConfigView)
    requires
        gguf_config(meta, has_output) == Ok::<ConfigView, ErrorView>(c),
    ensures
        mirrors_metadata(c, meta, has_output),
{
    lemma_held(meta, "general.architecture"@);
    lemma_held(meta, "tokenizer.ggml.tokens"@);
    lemma_keys(c.arch);
    lemma_held(meta, c.arch + ".embedding_length"@);
    lemma_held(meta, c.arch + ".block_count"@);
    lemma_held(meta, c.arch + ".attention.head_count"@);
    lemma_held(meta, c.arch + ".attention.head_count_kv"@);
    lemma_held(meta, c.arch + ".attention.key_length"@);
    lemma_held(meta, c.arch + ".feed_forward_length"@);
    lemma_held(meta, c.arch + ".vocab_size"@);
    lemma_held(meta, c.arch + ".context_length"@);
    lemma_held(meta, c.arch + ".attention.layer_norm_rms_epsilon"@);
    lemma_held(meta, c.arch + ".rope.freq_base"@);
    lemma_default_base();
    if without(meta, c.arch + ".attention.key_length"@) {
        lemma_shared_out(c.hidden as int, c.n_heads as int);
    }
}

/// A file lacks nothing that a configuration must have, or it is refused.
pub proof fn lemma_metadata_refused(
    meta: Metadata,
    has_output: bool,
    arch: Seq<char>,
    key: Seq<char>,
)
    requires
        holds(meta, "general.architecture"@, MetaView::Text(arch)),
        without(meta, key),
        key == arch + ".embedding_length"@ || key == arch + ".block_count"@ || key == arch
            + ".attention.head_count"@ || key == arch + ".feed_forward_length"@ || key == arch
            + ".attention.layer_norm_rms_epsilon"@ || key == arch + ".context_length"@,
    ensures
        gguf_config(meta, has_output) is Err,
{
    lemma_held(meta, "general.architecture"@);
    lemma_held(meta, key);
    lemma_keys(arch);
}

proof fn lemma_shared_out(h: int, n: int)
    requires
        h >= 0,
        n > 0,
    ensures
        h / n * n <= h < (h / n + 1) * n,
{
    vstd::arithmetic::div_mod::lemma_fundamental_div_mod(h, n);
    vstd::arithmetic::div_mod::lemma_mod_bound(h, n);
    let d = h / n;
    assert(d * n <= h < (d + 1) * n) by (nonlinear_arith)
        requires
            h == n * d + h % n,
            0 <= h % n < n,
    ;
}

/// The default RoPE base is ten thousand, in either precision.
pub proof fn lemma_default_base()
    ensures
        exact(DEFAULT_ROPE_THETA) == 10_000 * pow2(149),
        exact_double(DEFAULT_ROPE_THETA_DOUBLE) == 10_000 * pow2(1074),
{
    lemma2_to64();
    lemma2_to64_rest();
    lemma_pow2_adds(10, 139);
    lemma_pow2_adds(39, 1035);
    assert(pow2(10) == 1024);
    assert(pow2(39) == 0x80_0000_0000);
    assert(exact(DEFAULT_ROPE_THETA) == 10_240_000 * pow2(139));
    let p = pow2(1035);
    assert(exact_double(DEFAULT_ROPE_THETA_DOUBLE) == (10_000 * 0x80_0000_0000) * p);
    assert((10_000 * 0x80_0000_0000) * p == 10_000 * (0x80_0000_0000 * p)) by (nonlinear_arith);
}

/// The settings that only some architectures read are each found under their own name; the kind of
/// attention of a layer is the entry of the list at the layer's index.
pub proof fn lemma_extra(m: Document, x: ExtraView)
    requires
        x == extra_of(m),
    ensures
        forall|n: usize| #[trigger]
            counts(m, "/global_head_dim"@, n) ==> x.global_head_dim == Some(n as u64),
        forall|n: usize| #[trigger]
            counts(m, "/num_experts"@, n) ==> x.num_experts == Some(n as u64),
        forall|n: usize| #[trigger]
            counts(m, "/hidden_size_per_layer_input"@, n) ==> x.hidden_size_per_layer_input == Some(
                n as u64,
            ),
        lacks(m, "/num_experts"@) ==> x.num_experts is None,
        lacks(m, "/hidden_size_per_layer_input"@) ==> x.hidden_size_per_layer_input is None,
        lacks(m, "/global_head_dim"@) ==> x.global_head_dim is None,
        lacks(m, "/enable_moe_block"@) ==> x.enable_moe_block is None,
        lacks(m, "/layer_types"@) ==> x.layer_types is None,
        lacks(m, "/final_logit_softcapping"@) ==> x.final_logit_softcapping is None,
        m.dom().contains("/enable_moe_block"@) && m["/enable_moe_block"@] is Bool
            ==> x.enable_moe_block == Some(m["/enable_moe_block"@]->Bool_0),
        forall|t: u64| #[trigger]
            amounts(m, "/rope_parameters/sliding_attention/rope_theta"@, t) ==> x.local_rope_theta
                == Some(t),
        forall|t: u64| #[trigger]
            amounts(m, "/rope_parameters/full_attention/rope_theta"@, t) ==> x.global_rope_theta
                == Some(t),
        forall|t: u64| #[trigger]
            amounts(m, "/rope_parameters/full_attention/partial_rotary_factor"@, t)
                ==> x.partial_rotary_factor == Some(t),
        forall|t: u64| #[trigger]
            amounts(m, "/final_logit_softcapping"@, t) ==> x.final_logit_softcapping == Some(t),
        m.dom().contains("/layer_types"@) && m["/layer_types"@] is Array ==> {
            &&& x.layer_types is Some
            &&& x.layer_types->Some_0.len() == m["/layer_types"@]->Array_0
            &&& forall|i: int, s: Seq<char>|
                0 <= i < x.layer_types->Some_0.len() && #[trigger] says(
                    m,
                    "/layer_types/"@ + dec(i as nat),
                    s,
                ) ==> x.layer_types->Some_0[i] == Some(s)
        },
{
    reveal(extra_of);
}

/// A configuration that was read from a list of its settings has them in their order: the
/// architecture, the hidden size, the numbers of layers, heads and key/value heads, the head size,
/// the feed-forward size, the vocabulary, the norm's epsilon, the RoPE base and settings, the tied
/// embeddings and the context length.
pub proof fn lemma_configuration_listed(text: Seq<char>, m: Document, c: ConfigView)
    requires
        parsed_json(text) == Ok::<Document, Seq<char>>(m),
        m.dom().contains(""@),
        m[""@] == NodeView::Array(13),
        hf_config(text) == Ok::<ConfigView, ErrorView>(c),
    ensures
        counts(m, "/"@ + dec(1), c.hidden),
        counts(m, "/"@ + dec(2), c.n_layers),
        counts(m, "/"@ + dec(3), c.n_heads),
        counts(m, "/"@ + dec(6), c.intermediate),
        counts(m, "/"@ + dec(7), c.vocab),
        counts(m, "/"@ + dec(12), c.max_seq),
        lacks(m, "/"@ + dec(0)) || says(m, "/"@ + dec(0), c.arch),
        lacks(m, "/"@ + dec(4)) || counts(m, "/"@ + dec(4), c.n_kv_heads),
        lacks(m, "/"@ + dec(5)) || counts(m, "/"@ + dec(5), c.head_dim),
        switches(m, "/"@ + dec(11), c.tie_word_embeddings),
        forall|x: u64| #[trigger]
            amounts(m, "/"@ + dec(8), x) ==> c.rms_eps == narrowed(x),
        forall|x: u64| #[trigger]
            amounts(m, "/"@ + dec(9), x) ==> c.rope_theta == narrowed(x),
{
}

/// A list that ends before one of the settings that a model needs, or goes on behind the last, is
/// refused.
pub proof fn lemma_configuration_length(text: Seq<char>, m: Document, n: usize)
    requires
        parsed_json(text) == Ok::<Document, Seq<char>>(m),
        m.dom().contains(""@),
        m[""@] == NodeView::Array(n),
        n != 13,
    ensures
        hf_config(text) is Err,
{
}

/// What metadata values are as sizes and as numbers: integers that are not negative are sizes, all
/// numbers are numbers, correctly rounded, and only texts are texts.
pub proof fn lemma_meta(n: u64, i: i64, x: u32, d: u64, s: Seq<char>)
    ensures
        meta_u64(MetaView::U64(n)) == Some(n),
        meta_u64(MetaView::I64(i)) is Some <==> i >= 0,
        i >= 0 ==> meta_u64(MetaView::I64(i))->Some_0 == i,
        meta_u64(MetaView::Single(x)) is None,
        meta_u64(MetaView::Double(d)) is None,
        meta_u64(MetaView::Text(s)) is None,
        meta_f32(MetaView::Single(x)) == Some(x),
        meta_f32(MetaView::Double(d)) is Some,
        finite_double(d) ==> rounds_to(
            exact_double(d),
            925,
            meta_f32(MetaView::Double(d))->Some_0,
        ),
        meta_f32(MetaView::U64(n)) is Some,
        rounds_to(n * pow2(149), 0, meta_f32(MetaView::U64(n))->Some_0),
        meta_f32(MetaView::I64(i)) is Some,
        rounds_to(i * pow2(149), 0, meta_f32(MetaView::I64(i))->Some_0),
        meta_f32(MetaView::Text(s)) is None,
        meta_text(MetaView::Text(s)) == Some(s),
        meta_text(MetaView::U64(n)) is None,
        meta_text(MetaView::I64(i)) is None,
{
    if finite_double(d) {
        lemma_narrowed(d);
    }
    lemma_of_int(n as int);
    lemma_of_int(i as int);
}

} // verus!
