//! Normalized model configuration, decoupled from any single source format.
//!
//! Real numbers are carried as the bits of their IEEE codes: single precision in [`Config`],
//! double precision where they come from a JSON document.

use vstd::prelude::*;

use crate::error::{seen, ErrorView, EyebrowseError, Result};
use crate::float::{narrow, narrowed};
use crate::json::{
    array_at, bool_at, copy_document, double_at, json_contents, node_at, parse_json, parsed_json,
    read_array, read_bool, read_double, read_text, read_unsigned, text_at, unsigned_at, Node,
    NodeView,
};
use crate::text::{cat2, cat3, dec, decimal};

verus! {

/// The single-precision code of the RoPE base that a configuration leaves out: ten thousand.
pub const DEFAULT_ROPE_THETA: u32 = 0x461C_4000;

/// The double-precision code of ten thousand.
pub const DEFAULT_ROPE_THETA_DOUBLE: u64 = 0x40C3_8800_0000_0000;

/// Architecture-specific settings of a Hugging Face `config.json` that the fields of [`Config`] do
/// not capture. Every field is empty when the source has no JSON configuration.
#[derive(Debug)]
pub struct Extra {
    pub hidden_size_per_layer_input: Option<u64>,
    pub num_experts: Option<u64>,
    pub enable_moe_block: Option<bool>,
    pub global_head_dim: Option<u64>,
    /// The kind of attention of each layer; an entry that is not a text is none.
    pub layer_types: Option<Vec<Option<String>>>,
    pub local_rope_theta: Option<u64>,
    pub global_rope_theta: Option<u64>,
    pub partial_rotary_factor: Option<u64>,
    pub final_logit_softcapping: Option<u64>,
}

/// An [`Extra`] with its texts as sequences of characters.
#[verifier::ext_equal]
pub struct ExtraView {
    pub hidden_size_per_layer_input: Option<u64>,
    pub num_experts: Option<u64>,
    pub enable_moe_block: Option<bool>,
    pub global_head_dim: Option<u64>,
    pub layer_types: Option<Seq<Option<Seq<char>>>>,
    pub local_rope_theta: Option<u64>,
    pub global_rope_theta: Option<u64>,
    pub partial_rotary_factor: Option<u64>,
    pub final_logit_softcapping: Option<u64>,
}

/// A text that may be missing, as a sequence of characters.
pub open spec fn text_view(s: Option<String>) -> Option<Seq<char>> {
    match s {
        Some(t) => Some(t@),
        None => None,
    }
}

/// Texts that may be missing, as sequences of characters.
pub open spec fn texts_view(s: Seq<Option<String>>) -> Seq<Option<Seq<char>>> {
    s.map_values(|t: Option<String>| text_view(t))
}

impl View for Extra {
    type V = ExtraView;

    open spec fn view(&self) -> ExtraView {
        ExtraView {
            hidden_size_per_layer_input: self.hidden_size_per_layer_input,
            num_experts: self.num_experts,
            enable_moe_block: self.enable_moe_block,
            global_head_dim: self.global_head_dim,
            layer_types: match self.layer_types {
                Some(v) => Some(texts_view(v@)),
                None => None,
            },
            local_rope_theta: self.local_rope_theta,
            global_rope_theta: self.global_rope_theta,
            partial_rotary_factor: self.partial_rotary_factor,
            final_logit_softcapping: self.final_logit_softcapping,
        }
    }
}

/// Architecture-independent description of a transformer model. `rms_eps` and `rope_theta` are
/// single-precision codes.
#[derive(Debug)]
pub struct Config {
    pub arch: String,
    pub hidden: usize,
    pub n_layers: usize,
    pub n_heads: usize,
    pub n_kv_heads: usize,
    pub head_dim: usize,
    pub intermediate: usize,
    pub vocab: usize,
    pub rms_eps: u32,
    pub rope_theta: u32,
    pub tie_word_embeddings: bool,
    pub max_seq: usize,
    /// The full source `config.json`, for settings that only some architectures read. It is null
    /// when the source has no JSON configuration.
    pub extra: serde_json::Value,
}

/// A [`Config`] with its text as a sequence of characters, and with what its document holds.
pub struct ConfigView {
    pub arch: Seq<char>,
    pub hidden: usize,
    pub n_layers: usize,
    pub n_heads: usize,
    pub n_kv_heads: usize,
    pub head_dim: usize,
    pub intermediate: usize,
    pub vocab: usize,
    pub rms_eps: u32,
    pub rope_theta: u32,
    pub tie_word_embeddings: bool,
    pub max_seq: usize,
    pub extra: Map<Seq<char>, NodeView>,
}

impl View for Config {
    type V = ConfigView;

    open spec fn view(&self) -> ConfigView {
        ConfigView {
            arch: self.arch@,
            hidden: self.hidden,
            n_layers: self.n_layers,
            n_heads: self.n_heads,
            n_kv_heads: self.n_kv_heads,
            head_dim: self.head_dim,
            intermediate: self.intermediate,
            vocab: self.vocab,
            rms_eps: self.rms_eps,
            rope_theta: self.rope_theta,
            tie_word_embeddings: self.tie_word_embeddings,
            max_seq: self.max_seq,
            extra: json_contents(self.extra),
        }
    }
}

impl Clone for Config {
    fn clone(&self) -> (r: Self)
        ensures
            r@ == self@,
    {
        Config {
            arch: self.arch.clone(),
            hidden: self.hidden,
            n_layers: self.n_layers,
            n_heads: self.n_heads,
            n_kv_heads: self.n_kv_heads,
            head_dim: self.head_dim,
            intermediate: self.intermediate,
            vocab: self.vocab,
            rms_eps: self.rms_eps,
            rope_theta: self.rope_theta,
            tie_word_embeddings: self.tie_word_embeddings,
            max_seq: self.max_seq,
            extra: copy_document(&self.extra),
        }
    }
}

/// A refused `config.json`, in these words.
pub open spec fn refused(words: Seq<char>) -> ErrorView {
    ErrorView::Load("config.json: "@ + words)
}

/// The refusal of a document that lacks the field `key`.
pub open spec fn missing_field(key: Seq<char>) -> ErrorView {
    refused("missing field `"@ + key + "`"@)
}

/// The refusal of a list of fields that ends before field `i`, of what it stands for.
pub open spec fn invalid_length(i: nat, what: Seq<char>) -> ErrorView {
    refused("invalid length "@ + dec(i) + what)
}

/// What a list of the fields of a configuration stands for.
pub open spec fn whole_config() -> Seq<char> {
    ", expected struct HfConfig with 13 elements"@
}

/// What a list of the RoPE settings stands for.
pub open spec fn whole_rope() -> Seq<char> {
    ", expected struct RopeParameters with 1 element"@
}

/// The refusal of a document whose field `key` holds what the field cannot hold.
pub open spec fn invalid_field(key: Seq<char>) -> ErrorView {
    refused("invalid field "@ + key)
}

fn refuse(words: &str) -> (r: EyebrowseError)
    ensures
        r@ == refused(words@),
{
    EyebrowseError::Load(cat2("config.json: ", words))
}

fn refuse_missing(key: &str) -> (r: EyebrowseError)
    ensures
        r@ == missing_field(key@),
{
    refuse(cat3("missing field `", key, "`").as_str())
}

fn refuse_length(i: usize, what: &str) -> (r: EyebrowseError)
    ensures
        r@ == invalid_length(i as nat, what@),
{
    refuse(cat3("invalid length ", decimal(i as u64).as_str(), what).as_str())
}

fn refuse_invalid(key: &str) -> (r: EyebrowseError)
    ensures
        r@ == invalid_field(key@),
{
    refuse(cat2("invalid field ", key).as_str())
}

/// A field's value, where it has one, by the view of the node.
pub open spec fn node_view(n: Option<Node>) -> Option<NodeView> {
    match n {
        Some(v) => Some(v@),
        None => None,
    }
}

/// What was looked up for a field: its value, where it has one, or why there is none to be had.
pub type Lookup = std::result::Result<Option<NodeView>, ErrorView>;

/// What was looked up for a field, by the view of the node.
pub open spec fn lookup_view(n: Result<Option<Node>>) -> Lookup {
    match n {
        Ok(v) => Ok(node_view(v)),
        Err(e) => Err(e@),
    }
}

/// A size that a field must hold: an unsigned integer that the machine can count to.
pub open spec fn size_field(key: Seq<char>, n: Lookup) -> std::result::Result<
    usize,
    ErrorView,
> {
    match n {
        Err(e) => Err(e),
        Ok(None) => Err(missing_field(key)),
        Ok(Some(NodeView::Number(x))) => match x.unsigned {
            Some(v) => if v <= usize::MAX {
                Ok(v as usize)
            } else {
                Err(invalid_field(key))
            },
            None => Err(invalid_field(key)),
        },
        Ok(Some(_)) => Err(invalid_field(key)),
    }
}

/// A size that a field may hold; an absent field and a null hold none.
pub open spec fn size_field_or_none(key: Seq<char>, n: Lookup) -> std::result::Result<
    Option<usize>,
    ErrorView,
> {
    match n {
        Ok(None) | Ok(Some(NodeView::Null)) => Ok(None),
        _ => match size_field(key, n) {
            Ok(v) => Ok(Some(v)),
            Err(e) => Err(e),
        },
    }
}

/// A number that a field must hold.
pub open spec fn real_field(key: Seq<char>, n: Lookup) -> std::result::Result<
    u64,
    ErrorView,
> {
    match n {
        Err(e) => Err(e),
        Ok(None) => Err(missing_field(key)),
        Ok(Some(NodeView::Number(x))) => match x.double {
            Some(v) => Ok(v),
            None => Err(invalid_field(key)),
        },
        Ok(Some(_)) => Err(invalid_field(key)),
    }
}

/// A number that a field may hold; an absent field and a null hold none.
pub open spec fn real_field_or_none(key: Seq<char>, n: Lookup) -> std::result::Result<
    Option<u64>,
    ErrorView,
> {
    match n {
        Ok(None) | Ok(Some(NodeView::Null)) => Ok(None),
        _ => match real_field(key, n) {
            Ok(v) => Ok(Some(v)),
            Err(e) => Err(e),
        },
    }
}

/// A text that a field may hold; an absent field and a null hold none.
pub open spec fn text_field_or_none(key: Seq<char>, n: Lookup) -> std::result::Result<
    Option<Seq<char>>,
    ErrorView,
> {
    match n {
        Ok(None) | Ok(Some(NodeView::Null)) => Ok(None),
        Err(e) => Err(e),
        Ok(Some(NodeView::Text(s))) => Ok(Some(s)),
        Ok(Some(_)) => Err(invalid_field(key)),
    }
}

/// A switch that a field may hold; it is off where the field is absent.
pub open spec fn switch_field(key: Seq<char>, n: Lookup) -> std::result::Result<
    bool,
    ErrorView,
> {
    match n {
        Err(e) => Err(e),
        Ok(None) => Ok(false),
        Ok(Some(NodeView::Bool(b))) => Ok(b),
        Ok(Some(_)) => Err(invalid_field(key)),
    }
}

/// Reads a size that a field must hold.
pub fn take_size(key: &str, n: Result<Option<Node>>) -> (r: Result<usize>)
    ensures
        match r {
            Ok(v) => size_field(key@, lookup_view(n)) == Ok::<usize, ErrorView>(v),
            Err(e) => size_field(key@, lookup_view(n)) == Err::<usize, ErrorView>(e@),
        },
{
    match n {
        Err(e) => Err(e),
        Ok(None) => Err(refuse_missing(key)),
        Ok(Some(Node::Number(x))) => match x.unsigned {
            Some(v) => {
                if v <= usize::MAX as u64 {
                    Ok(v as usize)
                } else {
                    Err(refuse_invalid(key))
                }
            },
            None => Err(refuse_invalid(key)),
        },
        Ok(Some(_)) => Err(refuse_invalid(key)),
    }
}

/// Reads a size that a field may hold.
pub fn take_size_or_none(key: &str, n: Result<Option<Node>>) -> (r: Result<Option<usize>>)
    ensures
        match r {
            Ok(v) => size_field_or_none(key@, lookup_view(n)) == Ok::<Option<usize>, ErrorView>(v),
            Err(e) => size_field_or_none(key@, lookup_view(n)) == Err::<Option<usize>, ErrorView>(
                e@,
            ),
        },
{
    match n {
        Ok(None) => Ok(None),
        Ok(Some(Node::Null)) => Ok(None),
        other => match take_size(key, other) {
            Ok(v) => Ok(Some(v)),
            Err(e) => Err(e),
        },
    }
}

/// Reads a number that a field must hold.
pub fn take_real(key: &str, n: Result<Option<Node>>) -> (r: Result<u64>)
    ensures
        match r {
            Ok(v) => real_field(key@, lookup_view(n)) == Ok::<u64, ErrorView>(v),
            Err(e) => real_field(key@, lookup_view(n)) == Err::<u64, ErrorView>(e@),
        },
{
    match n {
        Err(e) => Err(e),
        Ok(None) => Err(refuse_missing(key)),
        Ok(Some(Node::Number(x))) => match x.double {
            Some(v) => Ok(v),
            None => Err(refuse_invalid(key)),
        },
        Ok(Some(_)) => Err(refuse_invalid(key)),
    }
}

/// Reads a number that a field may hold.
pub fn take_real_or_none(key: &str, n: Result<Option<Node>>) -> (r: Result<Option<u64>>)
    ensures
        match r {
            Ok(v) => real_field_or_none(key@, lookup_view(n)) == Ok::<Option<u64>, ErrorView>(v),
            Err(e) => real_field_or_none(key@, lookup_view(n)) == Err::<Option<u64>, ErrorView>(e@),
        },
{
    match n {
        Ok(None) => Ok(None),
        Ok(Some(Node::Null)) => Ok(None),
        other => match take_real(key, other) {
            Ok(v) => Ok(Some(v)),
            Err(e) => Err(e),
        },
    }
}

/// Reads a text that a field may hold.
pub fn take_text_or_none(key: &str, n: Result<Option<Node>>) -> (r: Result<Option<String>>)
    ensures
        match r {
            Ok(v) => text_field_or_none(key@, lookup_view(n)) == Ok::<Option<Seq<char>>, ErrorView>(
                text_view(v),
            ),
            Err(e) => text_field_or_none(key@, lookup_view(n)) == Err::<
                Option<Seq<char>>,
                ErrorView,
            >(e@),
        },
{
    match n {
        Err(e) => Err(e),
        Ok(None) => Ok(None),
        Ok(Some(Node::Null)) => Ok(None),
        Ok(Some(Node::Text(s))) => Ok(Some(s)),
        Ok(Some(_)) => Err(refuse_invalid(key)),
    }
}

/// Reads a switch that a field may hold.
pub fn take_switch(key: &str, n: Result<Option<Node>>) -> (r: Result<bool>)
    ensures
        match r {
            Ok(v) => switch_field(key@, lookup_view(n)) == Ok::<bool, ErrorView>(v),
            Err(e) => switch_field(key@, lookup_view(n)) == Err::<bool, ErrorView>(e@),
        },
{
    match n {
        Err(e) => Err(e),
        Ok(None) => Ok(false),
        Ok(Some(Node::Bool(b))) => Ok(b),
        Ok(Some(_)) => Err(refuse_invalid(key)),
    }
}

/// The fields of a Hugging Face `config.json` that every architecture has. Real numbers are
/// double-precision codes. Older configurations have a `rope_theta` of their own; newer ones nest
/// it in `rope_parameters`.
#[derive(Debug)]
pub struct HfConfig {
    pub model_type: Option<String>,
    pub hidden_size: usize,
    pub num_hidden_layers: usize,
    pub num_attention_heads: usize,
    pub num_key_value_heads: Option<usize>,
    pub head_dim: Option<usize>,
    pub intermediate_size: usize,
    pub vocab_size: usize,
    pub rms_norm_eps: u64,
    pub rope_theta: Option<u64>,
    pub nested_rope_theta: Option<u64>,
    pub tie_word_embeddings: bool,
    pub max_position_embeddings: usize,
}

/// An [`HfConfig`] with its text as a sequence of characters.
pub struct HfView {
    pub model_type: Option<Seq<char>>,
    pub hidden_size: usize,
    pub num_hidden_layers: usize,
    pub num_attention_heads: usize,
    pub num_key_value_heads: Option<usize>,
    pub head_dim: Option<usize>,
    pub intermediate_size: usize,
    pub vocab_size: usize,
    pub rms_norm_eps: u64,
    pub rope_theta: Option<u64>,
    pub nested_rope_theta: Option<u64>,
    pub tie_word_embeddings: bool,
    pub max_position_embeddings: usize,
}

impl View for HfConfig {
    type V = HfView;

    open spec fn view(&self) -> HfView {
        HfView {
            model_type: text_view(self.model_type),
            hidden_size: self.hidden_size,
            num_hidden_layers: self.num_hidden_layers,
            num_attention_heads: self.num_attention_heads,
            num_key_value_heads: self.num_key_value_heads,
            head_dim: self.head_dim,
            intermediate_size: self.intermediate_size,
            vocab_size: self.vocab_size,
            rms_norm_eps: self.rms_norm_eps,
            rope_theta: self.rope_theta,
            nested_rope_theta: self.nested_rope_theta,
            tie_word_embeddings: self.tie_word_embeddings,
            max_position_embeddings: self.max_position_embeddings,
        }
    }
}

/// The RoPE base of a configuration: its own, else the nested one, else ten thousand.
pub open spec fn resolved_theta(own: Option<u64>, nested: Option<u64>) -> u64 {
    match own {
        Some(t) => t,
        None => match nested {
            Some(t) => t,
            None => DEFAULT_ROPE_THETA_DOUBLE,
        },
    }
}

/// The configuration that the fields of a `config.json` describe. A model without attention heads
/// is refused.
pub open spec fn normalized(
    hf: HfView,
    extra: Map<Seq<char>, NodeView>,
) -> std::result::Result<ConfigView, ErrorView> {
    if hf.num_attention_heads == 0 {
        Err(refused("num_attention_heads is zero"@))
    } else {
        Ok(
            ConfigView {
                arch: match hf.model_type {
                    Some(s) => s,
                    None => "unknown"@,
                },
                hidden: hf.hidden_size,
                n_layers: hf.num_hidden_layers,
                n_heads: hf.num_attention_heads,
                n_kv_heads: match hf.num_key_value_heads {
                    Some(n) => n,
                    None => hf.num_attention_heads,
                },
                head_dim: match hf.head_dim {
                    Some(n) => n,
                    None => hf.hidden_size / hf.num_attention_heads,
                },
                intermediate: hf.intermediate_size,
                vocab: hf.vocab_size,
                rms_eps: narrowed(hf.rms_norm_eps),
                rope_theta: narrowed(resolved_theta(hf.rope_theta, hf.nested_rope_theta)),
                tie_word_embeddings: hf.tie_word_embeddings,
                max_seq: hf.max_position_embeddings,
                extra,
            },
        )
    }
}

/// Makes a configuration of the fields of a `config.json`.
pub fn normalize(hf: HfConfig, extra: serde_json::Value) -> (r: Result<Config>)
    ensures
        seen(r) == normalized(hf@, json_contents(extra)),
{
    let n_heads = hf.num_attention_heads;
    if n_heads == 0 {
        return Err(refuse("num_attention_heads is zero"));
    }
    let theta = match hf.rope_theta {
        Some(t) => t,
        None => match hf.nested_rope_theta {
            Some(t) => t,
            None => DEFAULT_ROPE_THETA_DOUBLE,
        },
    };
    Ok(
        Config {
            arch: match hf.model_type {
                Some(s) => s,
                None => "unknown".to_owned(),
            },
            hidden: hf.hidden_size,
            n_layers: hf.num_hidden_layers,
            n_heads,
            n_kv_heads: match hf.num_key_value_heads {
                Some(n) => n,
                None => n_heads,
            },
            head_dim: match hf.head_dim {
                Some(n) => n,
                None => hf.hidden_size / n_heads,
            },
            intermediate: hf.intermediate_size,
            vocab: hf.vocab_size,
            rms_eps: narrow(hf.rms_norm_eps),
            rope_theta: narrow(theta),
            tie_word_embeddings: hf.tie_word_embeddings,
            max_seq: hf.max_position_embeddings,
            extra,
        },
    )
}

/// Where a document has a field: an object under the field's name, a list in the order of the
/// fields.
pub open spec fn field_pointer(m: Map<Seq<char>, NodeView>, key: Seq<char>, i: nat) -> Seq<char> {
    "/"@ + if array_at(m, ""@) is Some {
        dec(i)
    } else {
        key
    }
}

/// What a pointer reaches, if it reaches anything.
pub open spec fn reached(m: Map<Seq<char>, NodeView>, pointer: Seq<char>) -> Option<NodeView> {
    if m.dom().contains(pointer) {
        Some(m[pointer])
    } else {
        None
    }
}

/// What a document holds as its field `key`, the one at `i` of a list. A list may end before the
/// field only where the field has a default.
pub open spec fn field(
    m: Map<Seq<char>, NodeView>,
    key: Seq<char>,
    i: nat,
    defaulted: bool,
) -> Lookup {
    match array_at(m, ""@) {
        Some(n) => if i >= n && !defaulted {
            Err(invalid_length(i, whole_config()))
        } else if i >= n {
            Ok(None)
        } else {
            Ok(reached(m, field_pointer(m, key, i)))
        },
        None => Ok(reached(m, field_pointer(m, key, i))),
    }
}

fn field_name(document: &serde_json::Value, key: &str, i: usize) -> (r: String)
    ensures
        r@ == field_pointer(json_contents(*document), key@, i as nat),
{
    if read_array(document, "").is_some() {
        cat2("/", decimal(i as u64).as_str())
    } else {
        cat2("/", key)
    }
}

fn read_field(document: &serde_json::Value, key: &str, i: usize, defaulted: bool) -> (r: Result<
    Option<Node>,
>)
    ensures
        lookup_view(r) == field(json_contents(*document), key@, i as nat, defaulted),
{
    if let Some(n) = read_array(document, "") {
        if i >= n {
            return if defaulted {
                Ok(None)
            } else {
                Err(refuse_length(i, ", expected struct HfConfig with 13 elements"))
            };
        }
    }
    Ok(node_at(document, field_name(document, key, i).as_str()))
}

/// The RoPE base nested in the `rope_parameters` of a document, which is an object, or a list of
/// one, where it is there.
pub open spec fn nested_theta(m: Map<Seq<char>, NodeView>) -> std::result::Result<
    Option<u64>,
    ErrorView,
> {
    let at = field_pointer(m, "rope_parameters"@, 10);
    match field(m, "rope_parameters"@, 10, true) {
        Err(e) => Err(e),
        Ok(None) | Ok(Some(NodeView::Null)) => Ok(None),
        Ok(Some(NodeView::Object)) => real_field_or_none(
            "rope_theta"@,
            Ok(reached(m, at + "/rope_theta"@)),
        ),
        Ok(Some(NodeView::Array(n))) => if n == 0 {
            Err(invalid_length(0, whole_rope()))
        } else {
            match real_field_or_none("rope_theta"@, Ok(reached(m, at + "/0"@))) {
                Err(e) => Err(e),
                Ok(theta) => if n > 1 {
                    Err(refused("trailing characters"@))
                } else {
                    Ok(theta)
                },
            }
        },
        Ok(Some(_)) => Err(invalid_field("rope_parameters"@)),
    }
}

fn read_nested_theta(document: &serde_json::Value) -> (r: Result<Option<u64>>)
    ensures
        match r {
            Ok(v) => nested_theta(json_contents(*document)) == Ok::<Option<u64>, ErrorView>(v),
            Err(e) => nested_theta(json_contents(*document)) == Err::<Option<u64>, ErrorView>(e@),
        },
{
    let at = field_name(document, "rope_parameters", 10);
    match read_field(document, "rope_parameters", 10, true) {
        Err(e) => Err(e),
        Ok(None) => Ok(None),
        Ok(Some(Node::Null)) => Ok(None),
        Ok(Some(Node::Object)) => {
            let inner = cat2(at.as_str(), "/rope_theta");
            take_real_or_none("rope_theta", Ok(node_at(document, inner.as_str())))
        },
        Ok(Some(Node::Array(n))) => {
            if n == 0 {
                return Err(refuse_length(0, ", expected struct RopeParameters with 1 element"));
            }
            let inner = cat2(at.as_str(), "/0");
            match take_real_or_none("rope_theta", Ok(node_at(document, inner.as_str()))) {
                Err(e) => Err(e),
                Ok(theta) => if n > 1 {
                    Err(refuse("trailing characters"))
                } else {
                    Ok(theta)
                },
            }
        },
        Ok(Some(_)) => Err(refuse_invalid("rope_parameters")),
    }
}

/// The first thing for which a document that holds `m` is refused as a configuration. A
/// configuration is an object, or a list of its fields in order.
pub open spec fn hf_fault(m: Map<Seq<char>, NodeView>) -> Option<ErrorView> {
    if !(m.dom().contains(""@) && (m[""@] is Object || m[""@] is Array)) {
        Some(refused("expected struct HfConfig"@))
    } else if let Err(e) = text_field_or_none("model_type"@, field(m, "model_type"@, 0, false)) {
        Some(e)
    } else if let Err(e) = size_field("hidden_size"@, field(m, "hidden_size"@, 1, false)) {
        Some(e)
    } else if let Err(e) = size_field(
        "num_hidden_layers"@,
        field(m, "num_hidden_layers"@, 2, false),
    ) {
        Some(e)
    } else if let Err(e) = size_field(
        "num_attention_heads"@,
        field(m, "num_attention_heads"@, 3, false),
    ) {
        Some(e)
    } else if let Err(e) = size_field_or_none(
        "num_key_value_heads"@,
        field(m, "num_key_value_heads"@, 4, false),
    ) {
        Some(e)
    } else if let Err(e) = size_field_or_none("head_dim"@, field(m, "head_dim"@, 5, false)) {
        Some(e)
    } else if let Err(e) = size_field(
        "intermediate_size"@,
        field(m, "intermediate_size"@, 6, false),
    ) {
        Some(e)
    } else if let Err(e) = size_field("vocab_size"@, field(m, "vocab_size"@, 7, false)) {
        Some(e)
    } else if let Err(e) = real_field("rms_norm_eps"@, field(m, "rms_norm_eps"@, 8, false)) {
        Some(e)
    } else if let Err(e) = real_field_or_none("rope_theta"@, field(m, "rope_theta"@, 9, true)) {
        Some(e)
    } else if let Err(e) = nested_theta(m) {
        Some(e)
    } else if let Err(e) = switch_field(
        "tie_word_embeddings"@,
        field(m, "tie_word_embeddings"@, 11, true),
    ) {
        Some(e)
    } else if let Err(e) = size_field(
        "max_position_embeddings"@,
        field(m, "max_position_embeddings"@, 12, false),
    ) {
        Some(e)
    } else if array_at(m, ""@) matches Some(n) && n > 13 {
        Some(refused("trailing characters"@))
    } else {
        None
    }
}

/// The fields of a document without a fault.
pub open spec fn hf_fields(m: Map<Seq<char>, NodeView>) -> HfView {
    HfView {
        model_type: text_field_or_none("model_type"@, field(m, "model_type"@, 0, false))->Ok_0,
        hidden_size: size_field("hidden_size"@, field(m, "hidden_size"@, 1, false))->Ok_0,
        num_hidden_layers: size_field(
            "num_hidden_layers"@,
            field(m, "num_hidden_layers"@, 2, false),
        )->Ok_0,
        num_attention_heads: size_field(
            "num_attention_heads"@,
            field(m, "num_attention_heads"@, 3, false),
        )->Ok_0,
        num_key_value_heads: size_field_or_none(
            "num_key_value_heads"@,
            field(m, "num_key_value_heads"@, 4, false),
        )->Ok_0,
        head_dim: size_field_or_none("head_dim"@, field(m, "head_dim"@, 5, false))->Ok_0,
        intermediate_size: size_field(
            "intermediate_size"@,
            field(m, "intermediate_size"@, 6, false),
        )->Ok_0,
        vocab_size: size_field("vocab_size"@, field(m, "vocab_size"@, 7, false))->Ok_0,
        rms_norm_eps: real_field("rms_norm_eps"@, field(m, "rms_norm_eps"@, 8, false))->Ok_0,
        rope_theta: real_field_or_none("rope_theta"@, field(m, "rope_theta"@, 9, true))->Ok_0,
        nested_rope_theta: nested_theta(m)->Ok_0,
        tie_word_embeddings: switch_field(
            "tie_word_embeddings"@,
            field(m, "tie_word_embeddings"@, 11, true),
        )->Ok_0,
        max_position_embeddings: size_field(
            "max_position_embeddings"@,
            field(m, "max_position_embeddings"@, 12, false),
        )->Ok_0,
    }
}

fn read_hf(document: &serde_json::Value) -> (r: Result<HfConfig>)
    ensures
        match r {
            Ok(hf) => hf_fault(json_contents(*document)) is None && hf@ == hf_fields(
                json_contents(*document),
            ),
            Err(e) => hf_fault(json_contents(*document)) == Some(e@),
        },
{
    match node_at(document, "") {
        Some(Node::Object) => {},
        Some(Node::Array(_)) => {},
        _ => return Err(refuse("expected struct HfConfig")),
    }
    let found = read_field(document, "model_type", 0, false);
    let model_type = match take_text_or_none("model_type", found) {
        Ok(v) => v,
        Err(e) => return Err(e),
    };
    let found = read_field(document, "hidden_size", 1, false);
    let hidden_size = match take_size("hidden_size", found) {
        Ok(v) => v,
        Err(e) => return Err(e),
    };
    let found = read_field(document, "num_hidden_layers", 2, false);
    let num_hidden_layers = match take_size("num_hidden_layers", found) {
        Ok(v) => v,
        Err(e) => return Err(e),
    };
    let found = read_field(document, "num_attention_heads", 3, false);
    let num_attention_heads = match take_size("num_attention_heads", found) {
        Ok(v) => v,
        Err(e) => return Err(e),
    };
    let found = read_field(document, "num_key_value_heads", 4, false);
    let num_key_value_heads = match take_size_or_none("num_key_value_heads", found) {
        Ok(v) => v,
        Err(e) => return Err(e),
    };
    let found = read_field(document, "head_dim", 5, false);
    let head_dim = match take_size_or_none("head_dim", found) {
        Ok(v) => v,
        Err(e) => return Err(e),
    };
    let found = read_field(document, "intermediate_size", 6, false);
    let intermediate_size = match take_size("intermediate_size", found) {
        Ok(v) => v,
        Err(e) => return Err(e),
    };
    let found = read_field(document, "vocab_size", 7, false);
    let vocab_size = match take_size("vocab_size", found) {
        Ok(v) => v,
        Err(e) => return Err(e),
    };
    let found = read_field(document, "rms_norm_eps", 8, false);
    let rms_norm_eps = match take_real("rms_norm_eps", found) {
        Ok(v) => v,
        Err(e) => return Err(e),
    };
    let found = read_field(document, "rope_theta", 9, true);
    let rope_theta = match take_real_or_none("rope_theta", found) {
        Ok(v) => v,
        Err(e) => return Err(e),
    };
    let nested_rope_theta = match read_nested_theta(document) {
        Ok(v) => v,
        Err(e) => return Err(e),
    };
    let found = read_field(document, "tie_word_embeddings", 11, true);
    let tie_word_embeddings = match take_switch("tie_word_embeddings", found) {
        Ok(v) => v,
        Err(e) => return Err(e),
    };
    let found = read_field(document, "max_position_embeddings", 12, false);
    let max_position_embeddings = match take_size("max_position_embeddings", found) {
        Ok(v) => v,
        Err(e) => return Err(e),
    };
    if let Some(n) = read_array(document, "") {
        if n > 13 {
            return Err(refuse("trailing characters"));
        }
    }
    Ok(
        HfConfig {
            model_type,
            hidden_size,
            num_hidden_layers,
            num_attention_heads,
            num_key_value_heads,
            head_dim,
            intermediate_size,
            vocab_size,
            rms_norm_eps,
            rope_theta,
            nested_rope_theta,
            tie_word_embeddings,
            max_position_embeddings,
        },
    )
}

/// The settings of a document that only some architectures read.
#[verifier::opaque]
pub open spec fn extra_of(m: Map<Seq<char>, NodeView>) -> ExtraView {
    ExtraView {
        hidden_size_per_layer_input: unsigned_at(m, "/hidden_size_per_layer_input"@),
        num_experts: unsigned_at(m, "/num_experts"@),
        enable_moe_block: bool_at(m, "/enable_moe_block"@),
        global_head_dim: unsigned_at(m, "/global_head_dim"@),
        layer_types: match array_at(m, "/layer_types"@) {
            Some(n) => Some(
                Seq::new(n as nat, |i: int| text_at(m, "/layer_types/"@ + dec(i as nat))),
            ),
            None => None,
        },
        local_rope_theta: double_at(m, "/rope_parameters/sliding_attention/rope_theta"@),
        global_rope_theta: double_at(m, "/rope_parameters/full_attention/rope_theta"@),
        partial_rotary_factor: double_at(
            m,
            "/rope_parameters/full_attention/partial_rotary_factor"@,
        ),
        final_logit_softcapping: double_at(m, "/final_logit_softcapping"@),
    }
}

fn read_layer_types(document: &serde_json::Value, n: usize) -> (r: Vec<Option<String>>)
    ensures
        texts_view(r@) == Seq::new(
            n as nat,
            |i: int| text_at(json_contents(*document), "/layer_types/"@ + dec(i as nat)),
        ),
{
    let ghost m = json_contents(*document);
    let mut types: Vec<Option<String>> = Vec::new();
    let mut i: usize = 0;
    while i < n
        invariant
            i <= n,
            m == json_contents(*document),
            types@.len() == i,
            forall|k: int|
                0 <= k < i ==> text_view(#[trigger] types@[k]) == text_at(
                    m,
                    "/layer_types/"@ + dec(k as nat),
                ),
        decreases n - i,
    {
        let at = cat2("/layer_types/", decimal(i as u64).as_str());
        types.push(read_text(document, at.as_str()));
        i = i + 1;
    }
    assert(texts_view(types@) =~= Seq::new(
        n as nat,
        |i: int| text_at(m, "/layer_types/"@ + dec(i as nat)),
    ));
    types
}

fn read_extra(document: &serde_json::Value) -> (r: Extra)
    ensures
        r@ == extra_of(json_contents(*document)),
{
    proof {
        reveal(extra_of);
    }
    let layer_types = match read_array(document, "/layer_types") {
        Some(n) => Some(read_layer_types(document, n)),
        None => None,
    };
    Extra {
        hidden_size_per_layer_input: read_unsigned(document, "/hidden_size_per_layer_input"),
        num_experts: read_unsigned(document, "/num_experts"),
        enable_moe_block: read_bool(document, "/enable_moe_block"),
        global_head_dim: read_unsigned(document, "/global_head_dim"),
        layer_types,
        local_rope_theta: read_double(
            document,
            "/rope_parameters/sliding_attention/rope_theta",
        ),
        global_rope_theta: read_double(document, "/rope_parameters/full_attention/rope_theta"),
        partial_rotary_factor: read_double(
            document,
            "/rope_parameters/full_attention/partial_rotary_factor",
        ),
        final_logit_softcapping: read_double(document, "/final_logit_softcapping"),
    }
}

/// The configuration that a Hugging Face `config.json` holds.
pub open spec fn hf_config(text: Seq<char>) -> std::result::Result<ConfigView, ErrorView> {
    match parsed_json(text) {
        Err(words) => Err(refused(words)),
        Ok(m) => match hf_fault(m) {
            Some(e) => Err(e),
            None => normalized(hf_fields(m), m),
        },
    }
}

impl ConfigView {
    /// The settings that only some architectures read.
    pub open spec fn settings(self) -> ExtraView {
        extra_of(self.extra)
    }
}

impl Config {
    /// The settings that only some architectures read.
    pub fn settings(&self) -> (r: Extra)
        ensures
            r@ == self@.settings(),
    {
        read_extra(&self.extra)
    }
}

/// Parses a Hugging Face `config.json` into a normalized [`Config`], which keeps the document.
pub fn config_from_hf_json(s: &str) -> (r: Result<Config>)
    ensures
        seen(r) == hf_config(s@),
{
    let document = match parse_json(s) {
        Ok(v) => v,
        Err(words) => return Err(refuse(words.as_str())),
    };
    let hf = match read_hf(&document) {
        Ok(hf) => hf,
        Err(e) => return Err(e),
    };
    normalize(hf, document)
}

} // verus!
