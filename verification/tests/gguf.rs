use eyebrowse::gguf::{ggml_type_size, hf_to_gguf, missing, Cursor, GgufSource, MetaValue, GGUF_MAGIC};
use eyebrowse::source::{RawDType, WeightSource};

fn push_str(buf: &mut Vec<u8>, s: &str) {
    buf.extend_from_slice(&(s.len() as u64).to_le_bytes());
    buf.extend_from_slice(s.as_bytes());
}

fn push_kv_u32(buf: &mut Vec<u8>, key: &str, val: u32) {
    push_str(buf, key);
    buf.extend_from_slice(&4u32.to_le_bytes()); // value type u32
    buf.extend_from_slice(&val.to_le_bytes());
}

fn push_kv_f32(buf: &mut Vec<u8>, key: &str, val: f32) {
    push_str(buf, key);
    buf.extend_from_slice(&6u32.to_le_bytes()); // value type f32
    buf.extend_from_slice(&val.to_bits().to_le_bytes());
}

fn push_kv_str(buf: &mut Vec<u8>, key: &str, val: &str) {
    push_str(buf, key);
    buf.extend_from_slice(&8u32.to_le_bytes()); // value type string
    push_str(buf, val);
}

fn push_tensor_info(buf: &mut Vec<u8>, name: &str, dims: &[u64], ggml_type: u32, offset: u64) {
    push_str(buf, name);
    buf.extend_from_slice(&(dims.len() as u32).to_le_bytes());
    for d in dims {
        buf.extend_from_slice(&d.to_le_bytes());
    }
    buf.extend_from_slice(&ggml_type.to_le_bytes());
    buf.extend_from_slice(&offset.to_le_bytes());
}

fn build_tiny_gguf() -> Vec<u8> {
    // Two F32 tensors: token_embd.weight [4,4] (row-major), output_norm.weight [4].
    let embd: Vec<f32> = (0..16).map(|i| i as f32 * 0.5).collect();
    let norm: Vec<f32> = vec![1.0, 2.0, 3.0, 4.0];

    let mut meta = Vec::new();
    let kv_pairs: usize = 10;
    push_kv_str(&mut meta, "general.architecture", "tiny");
    push_kv_u32(&mut meta, "tiny.block_count", 1);
    push_kv_u32(&mut meta, "tiny.embedding_length", 4);
    push_kv_u32(&mut meta, "tiny.attention.head_count", 2);
    push_kv_u32(&mut meta, "tiny.attention.head_count_kv", 1);
    push_kv_u32(&mut meta, "tiny.feed_forward_length", 8);
    push_kv_f32(&mut meta, "tiny.attention.layer_norm_rms_epsilon", 1e-6);
    push_kv_f32(&mut meta, "tiny.rope.freq_base", 10000.0);
    push_kv_u32(&mut meta, "tiny.context_length", 128);
    push_kv_u32(&mut meta, "tiny.vocab_size", 4);

    // Tensor data laid out back to back; offsets relative to data section start.
    let embd_off: u64 = 0;
    let norm_off: u64 = (embd.len() * 4) as u64;

    let mut tinfo = Vec::new();
    // GGUF sizes are fastest-varying first; a row-major [4,4] is symmetric, [4] is [4].
    push_tensor_info(&mut tinfo, "token_embd.weight", &[4, 4], 0, embd_off);
    push_tensor_info(&mut tinfo, "output_norm.weight", &[4], 0, norm_off);

    let mut buf = Vec::new();
    buf.extend_from_slice(&GGUF_MAGIC.to_le_bytes());
    buf.extend_from_slice(&3u32.to_le_bytes()); // version
    buf.extend_from_slice(&2u64.to_le_bytes()); // tensor count
    buf.extend_from_slice(&(kv_pairs as u64).to_le_bytes()); // kv count
    buf.extend_from_slice(&meta);
    buf.extend_from_slice(&tinfo);

    // Pad to alignment (default 32).
    let align = 32;
    while buf.len() % align != 0 {
        buf.push(0);
    }
    // Tensor data section.
    for v in &embd {
        buf.extend_from_slice(&v.to_le_bytes());
    }
    for v in &norm {
        buf.extend_from_slice(&v.to_le_bytes());
    }
    buf
}

#[test]
fn parses_tiny_gguf_config() {
    let src = GgufSource::from_bytes(build_tiny_gguf()).unwrap();
    let cfg = src.config();
    assert_eq!(cfg.arch, "tiny");
    assert_eq!(cfg.hidden, 4);
    assert_eq!(cfg.n_layers, 1);
    assert_eq!(cfg.n_heads, 2);
    assert_eq!(cfg.n_kv_heads, 1);
    assert_eq!(cfg.head_dim, 2);
    assert_eq!(cfg.intermediate, 8);
    assert_eq!(cfg.vocab, 4);
    assert_eq!(cfg.max_seq, 128);
    assert!((f32::from_bits(cfg.rope_theta) - 10000.0).abs() < 1.0);
    assert!(cfg.tie_word_embeddings); // no output.weight
}

#[test]
fn raw_embedding_is_row_major() {
    let src = GgufSource::from_bytes(build_tiny_gguf()).unwrap();
    let t = src.raw("model.embed_tokens.weight").unwrap();
    assert_eq!(t.dtype, RawDType::F32);
    assert_eq!(t.shape, vec![4, 4]);
    let vals: Vec<f32> = bytemuck::pod_collect_to_vec::<u8, f32>(&t.bytes);
    let expected: Vec<f32> = (0..16).map(|i| i as f32 * 0.5).collect();
    assert_eq!(vals, expected);
}

#[test]
fn raw_norm_resolves() {
    let src = GgufSource::from_bytes(build_tiny_gguf()).unwrap();
    let t = src.raw("model.norm.weight").unwrap();
    assert_eq!(t.shape, vec![4]);
    let vals: Vec<f32> = bytemuck::pod_collect_to_vec::<u8, f32>(&t.bytes);
    assert_eq!(vals, vec![1.0, 2.0, 3.0, 4.0]);
}

#[test]
fn unknown_tensor_errors() {
    let src = GgufSource::from_bytes(build_tiny_gguf()).unwrap();
    assert!(src.raw("model.layers.0.mlp.up_proj.weight").is_err());
    assert!(src.raw("nonsense.weight").is_err());
}

#[test]
fn tensor_names_lists_present_only() {
    let src = GgufSource::from_bytes(build_tiny_gguf()).unwrap();
    let names = src.tensor_names();
    assert!(names.contains(&"model.embed_tokens.weight".to_string()));
    assert!(names.contains(&"model.norm.weight".to_string()));
    assert!(!names.contains(&"lm_head.weight".to_string()));
}

#[test]
fn listed_names_stand_for_layers_of_the_file() {
    let pairs = base_pairs();
    let infos = [
        info("blk.1.ffn_up.weight", &[1], 0, 0),
        info("blk.2.ffn_up.weight", &[1], 0, 0),
        info("blk.0.attn_q.weight", &[1], 0, 0),
        info("output_norm.weight", &[1], 0, 0),
        info("output_norm.weight", &[1], 0, 0),
    ];
    let src = GgufSource::from_bytes(build(&pairs, &infos, &[0; 4], 32)).unwrap();
    assert_eq!(
        src.tensor_names(),
        vec![
            "model.layers.0.self_attn.q_proj.weight",
            "model.layers.1.mlp.up_proj.weight",
            "model.norm.weight"
        ]
    );
    for name in src.tensor_names() {
        assert!(src.raw(&name).is_ok());
    }
    // Known, but of a layer that the file does not have.
    assert!(src.raw("model.layers.2.mlp.up_proj.weight").is_ok());
}

#[test]
fn rejects_bad_magic() {
    let mut bytes = build_tiny_gguf();
    bytes[0] ^= 0xFF;
    assert!(GgufSource::from_bytes(bytes).is_err());
}

fn message(r: eyebrowse::error::Result<GgufSource>) -> String {
    match r {
        Ok(_) => panic!("accepted"),
        Err(e) => e.message(),
    }
}

/// A file with these metadata pairs and tensor descriptions, aligned to 32 bytes.
fn build(pairs: &[Vec<u8>], infos: &[Vec<u8>], data: &[u8], align: usize) -> Vec<u8> {
    let mut buf = Vec::new();
    buf.extend_from_slice(&GGUF_MAGIC.to_le_bytes());
    buf.extend_from_slice(&3u32.to_le_bytes());
    buf.extend_from_slice(&(infos.len() as u64).to_le_bytes());
    buf.extend_from_slice(&(pairs.len() as u64).to_le_bytes());
    for p in pairs {
        buf.extend_from_slice(p);
    }
    for i in infos {
        buf.extend_from_slice(i);
    }
    while buf.len() % align != 0 {
        buf.push(0);
    }
    buf.extend_from_slice(data);
    buf
}

fn kv_u32(key: &str, val: u32) -> Vec<u8> {
    let mut b = Vec::new();
    push_kv_u32(&mut b, key, val);
    b
}

fn base_pairs() -> Vec<Vec<u8>> {
    let mut arch = Vec::new();
    push_kv_str(&mut arch, "general.architecture", "tiny");
    let mut eps = Vec::new();
    push_kv_f32(&mut eps, "tiny.attention.layer_norm_rms_epsilon", 1e-6);
    vec![
        arch,
        kv_u32("tiny.block_count", 2),
        kv_u32("tiny.embedding_length", 8),
        kv_u32("tiny.attention.head_count", 2),
        kv_u32("tiny.feed_forward_length", 8),
        eps,
        kv_u32("tiny.context_length", 128),
    ]
}

fn info(name: &str, dims: &[u64], ty: u32, off: u64) -> Vec<u8> {
    let mut b = Vec::new();
    push_tensor_info(&mut b, name, dims, ty, off);
    b
}

#[test]
fn defaults_fill_what_metadata_leave_out() {
    let src = GgufSource::from_bytes(build(&base_pairs(), &[], &[], 32)).unwrap();
    let cfg = src.config();
    assert_eq!(cfg.n_kv_heads, 2);
    assert_eq!(cfg.head_dim, 4);
    assert_eq!(cfg.vocab, 0);
    assert_eq!(f32::from_bits(cfg.rope_theta), 10000.0);
    assert_eq!(f32::from_bits(cfg.rms_eps), 1e-6);
    assert!(cfg.extra.is_null());
    assert!(cfg.settings().layer_types.is_none());
}

#[test]
fn the_vocabulary_is_counted_from_the_tokens() {
    let mut pairs = base_pairs();
    let mut tokens = Vec::new();
    push_str(&mut tokens, "tokenizer.ggml.tokens");
    tokens.extend_from_slice(&9u32.to_le_bytes());
    tokens.extend_from_slice(&8u32.to_le_bytes());
    tokens.extend_from_slice(&3u64.to_le_bytes());
    for t in ["a", "bc", "\u{e9}"] {
        push_str(&mut tokens, t);
    }
    pairs.push(tokens);
    let src = GgufSource::from_bytes(build(&pairs, &[], &[], 32)).unwrap();
    assert_eq!(src.config().vocab, 3);
}

#[test]
fn a_later_pair_replaces_an_earlier_one() {
    let mut pairs = base_pairs();
    pairs.push(kv_u32("tiny.block_count", 7));
    let src = GgufSource::from_bytes(build(&pairs, &[], &[], 32)).unwrap();
    assert_eq!(src.config().n_layers, 7);
}

#[test]
fn missing_settings_are_named_in_order() {
    for (gone, words) in [
        (0usize, "load error: missing general.architecture"),
        (1, "load error: missing tiny.block_count"),
        (2, "load error: missing tiny.embedding_length"),
        (3, "load error: missing tiny.attention.head_count"),
        (4, "load error: missing tiny.feed_forward_length"),
        (5, "load error: missing tiny.attention.layer_norm_rms_epsilon"),
        (6, "load error: missing tiny.context_length"),
    ] {
        let mut pairs = base_pairs();
        pairs.remove(gone);
        assert_eq!(message(GgufSource::from_bytes(build(&pairs, &[], &[], 32))), words);
    }
    assert_eq!(missing("a", "b.c").message(), "load error: missing a.b.c");
}

#[test]
fn a_model_without_heads_is_refused() {
    let mut pairs = base_pairs();
    pairs.push(kv_u32("tiny.attention.head_count", 0));
    assert_eq!(
        message(GgufSource::from_bytes(build(&pairs, &[], &[], 32))),
        "load error: zero tiny.attention.head_count"
    );
}

#[test]
fn other_versions_and_magic_words_are_refused() {
    let mut bytes = build_tiny_gguf();
    bytes[4] = 2;
    assert_eq!(
        message(GgufSource::from_bytes(bytes)),
        "unsupported config field: GGUF version 2"
    );
    let mut bytes = build_tiny_gguf();
    bytes[3] = 0;
    assert_eq!(message(GgufSource::from_bytes(bytes)), "load error: not a GGUF file");
}

#[test]
fn every_truncation_of_the_header_is_refused() {
    let bytes = build(&base_pairs(), &[info("output.weight", &[4, 2], 0, 0)], &[], 1);
    for n in 0..bytes.len() {
        assert_eq!(
            message(GgufSource::from_bytes(bytes[..n].to_vec())),
            "load error: GGUF truncated"
        );
    }
    assert!(GgufSource::from_bytes(bytes).is_ok());
}

#[test]
fn a_failed_read_says_where_it_stopped() {
    let mut c = Cursor::new(&[0x47, 0x47, 0x55, 0x46, 0x03]);
    assert_eq!(c.u32().unwrap(), 0x4655_4747);
    assert_eq!(c.pos, 4);
    assert_eq!(c.u32().unwrap_err().message(), "load error: GGUF truncated");
    assert_eq!(c.u64().unwrap_err().message(), "load error: GGUF truncated");
    assert_eq!(c.pos, 4);
    assert_eq!(c.u8().unwrap(), 3);
    assert!(c.u8().is_err());
    assert_eq!(c.pos, 5);

    let mut c = Cursor::new(&[5, 0, 0, 0, 0, 0, 0, 0, 97, 98]);
    assert_eq!(c.string().unwrap_err().message(), "load error: GGUF truncated");
    assert_eq!(c.pos, 8);
    let mut c = Cursor::new(&[1, 0, 0, 0, 0, 0, 0, 0, 0xFF]);
    assert!(c.string().is_err());
    assert_eq!(c.pos, 8);
    let mut c = Cursor::new(&[5, 0, 0]);
    assert!(c.string().is_err());
    assert_eq!(c.pos, 0);

    assert!(c.value(13).is_err());
    assert_eq!(c.pos, 0);
    assert!(c.value(2).is_ok());
    assert!(c.value(3).is_err());
    assert_eq!(c.pos, 2);

    // Two words of an announced three, then the end.
    let mut row = vec![4, 0, 0, 0, 3, 0, 0, 0, 0, 0, 0, 0];
    row.extend_from_slice(&[1, 0, 0, 0, 2, 0, 0, 0, 3]);
    let mut c = Cursor::new(&row);
    assert!(c.value(9).is_err());
    assert_eq!(c.pos, 20);
    let mut c = Cursor::new(&row[..6]);
    assert!(c.value(9).is_err());
    assert_eq!(c.pos, 4);
}

#[test]
fn lengths_beyond_the_file_are_refused() {
    let mut c = Cursor::new(&[0xFF; 16]);
    assert_eq!(c.string().unwrap_err().message(), "load error: GGUF truncated");
    let mut c = Cursor::new(&[2, 0, 0, 0, 0, 0, 0, 0, 0xC3, 0x28]);
    assert!(c.string().unwrap_err().message().starts_with("load error: GGUF non-utf8 string: "));
    let mut huge = vec![9, 0, 0, 0];
    huge.extend_from_slice(&u64::MAX.to_le_bytes());
    let mut c = Cursor::new(&huge);
    assert_eq!(c.value(9).unwrap_err().message(), "load error: GGUF truncated");
}

#[test]
fn metadata_values_of_every_type() {
    let bytes: Vec<u8> = (0x80..0xA0).collect();
    let mut c = Cursor::new(&bytes);
    assert!(matches!(c.value(0).unwrap(), MetaValue::U64(0x80)));
    assert!(matches!(c.value(1).unwrap(), MetaValue::I64(-0x7F)));
    assert!(matches!(c.value(2).unwrap(), MetaValue::U64(0x8382)));
    assert!(matches!(c.value(3).unwrap(), MetaValue::I64(v) if v == i16::from_le_bytes([0x84, 0x85]) as i64));
    assert!(matches!(c.value(4).unwrap(), MetaValue::U64(0x8988_8786)));
    assert!(matches!(c.value(5).unwrap(), MetaValue::I64(v) if v == i32::from_le_bytes([0x8A, 0x8B, 0x8C, 0x8D]) as i64));
    assert!(matches!(c.value(6).unwrap(), MetaValue::Single(0x9190_8F8E)));
    assert!(matches!(c.value(7).unwrap(), MetaValue::U64(1)));
    assert_eq!(c.pos, 19);
    let longs: Vec<u8> = [u64::MAX, u64::MAX - 5, 0x3FF0_0000_0000_0000]
        .iter()
        .flat_map(|v| v.to_le_bytes())
        .collect();
    let mut c = Cursor::new(&longs);
    assert!(matches!(c.value(10).unwrap(), MetaValue::U64(u64::MAX)));
    assert!(matches!(c.value(11).unwrap(), MetaValue::I64(-6)));
    assert!(matches!(c.value(12).unwrap(), MetaValue::Double(0x3FF0_0000_0000_0000)));
    let mut c = Cursor::new(&[]);
    assert_eq!(
        c.value(13).unwrap_err().message(),
        "load error: GGUF unknown metadata value type 13"
    );
}

#[test]
fn shapes_are_reversed_to_row_major() {
    let data: Vec<u8> = (0..6u32).flat_map(|i| (i as f32).to_le_bytes()).collect();
    let bytes = build(&base_pairs(), &[info("output.weight", &[3, 2], 0, 0)], &data, 32);
    let src = GgufSource::from_bytes(bytes).unwrap();
    assert!(!src.config().tie_word_embeddings);
    let t = src.raw("lm_head.weight").unwrap();
    assert_eq!(t.shape, vec![2, 3]);
    assert_eq!(t.bytes, data);
}

#[test]
fn data_begin_at_the_alignment_that_is_asked_for() {
    let mut pairs = base_pairs();
    pairs.push(kv_u32("general.alignment", 64));
    let data: Vec<u8> = 5f32.to_le_bytes().to_vec();
    let bytes = build(&pairs, &[info("output_norm.weight", &[1], 0, 0)], &data, 64);
    let src = GgufSource::from_bytes(bytes).unwrap();
    assert_eq!(src.raw("model.norm.weight").unwrap().bytes, data);
    let mut pairs = base_pairs();
    pairs.push(kv_u32("general.alignment", 0));
    assert_eq!(
        message(GgufSource::from_bytes(build(&pairs, &[], &[], 32))),
        "load error: GGUF alignment 0 out of range"
    );
}

#[test]
fn tensors_that_cannot_be_given_say_why() {
    let infos = [
        info("output_norm.weight", &[16], 0, 0),
        info("output.weight", &[4], 2, 0),
        info("token_embd.weight", &[33], 8, 0),
    ];
    let bytes = build(&base_pairs(), &infos, &[0; 60], 32);
    let src = GgufSource::from_bytes(bytes).unwrap();
    assert_eq!(
        src.raw("model.norm.weight").unwrap_err().message(),
        "load error: tensor model.norm.weight data out of bounds"
    );
    assert_eq!(
        src.raw("lm_head.weight").unwrap_err().message(),
        "unsupported config field: ggml type 2"
    );
    assert_eq!(
        src.raw("model.embed_tokens.weight").unwrap_err().message(),
        "load error: tensor model.embed_tokens.weight data out of bounds"
    );
    assert_eq!(
        src.raw("model.layers.x.mlp.up_proj.weight").unwrap_err().message(),
        "load error: unknown tensor model.layers.x.mlp.up_proj.weight"
    );
}

#[test]
fn tensors_too_large_to_count_are_refused() {
    let bytes = build(&base_pairs(), &[info("big", &[1 << 40, 1 << 40], 0, 0)], &[], 32);
    assert_eq!(
        message(GgufSource::from_bytes(bytes)),
        "load error: GGUF tensor big too large"
    );
}

#[test]
fn names_map_to_gguf() {
    for (hf, gguf) in [
        ("model.embed_tokens.weight", "token_embd.weight"),
        ("model.norm.weight", "output_norm.weight"),
        ("lm_head.weight", "output.weight"),
        ("model.layers.0.input_layernorm.weight", "blk.0.attn_norm.weight"),
        ("model.layers.1.post_attention_layernorm.weight", "blk.1.ffn_norm.weight"),
        ("model.layers.2.self_attn.q_proj.weight", "blk.2.attn_q.weight"),
        ("model.layers.3.self_attn.k_proj.weight", "blk.3.attn_k.weight"),
        ("model.layers.4.self_attn.v_proj.weight", "blk.4.attn_v.weight"),
        ("model.layers.5.self_attn.o_proj.weight", "blk.5.attn_output.weight"),
        ("model.layers.6.self_attn.q_norm.weight", "blk.6.attn_q_norm.weight"),
        ("model.layers.7.self_attn.k_norm.weight", "blk.7.attn_k_norm.weight"),
        ("model.layers.18.mlp.gate_proj.weight", "blk.18.ffn_gate.weight"),
        ("model.layers.19.mlp.up_proj.weight", "blk.19.ffn_up.weight"),
        ("model.layers.+20.mlp.down_proj.weight", "blk.+20.ffn_down.weight"),
    ] {
        assert_eq!(hf_to_gguf(hf).unwrap(), gguf);
    }
    for none in [
        "",
        "model.layers.",
        "model.layers.3",
        "model.layers..mlp.up_proj.weight",
        "model.layers.-1.mlp.up_proj.weight",
        "model.layers.99999999999999999999.mlp.up_proj.weight",
        "model.layers.1.mlp.up_proj.bias",
        "model.layers.1.mlp.weight",
    ] {
        assert!(hf_to_gguf(none).is_none(), "{}", none);
    }
}

#[test]
fn block_sizes() {
    assert_eq!(ggml_type_size(0).unwrap(), (1, 4));
    assert_eq!(ggml_type_size(1).unwrap(), (1, 2));
    assert_eq!(ggml_type_size(8).unwrap(), (32, 34));
    assert_eq!(ggml_type_size(12).unwrap(), (256, 144));
    assert_eq!(ggml_type_size(14).unwrap(), (256, 210));
    assert_eq!(ggml_type_size(3).unwrap_err().message(), "unsupported config field: ggml type 3");
}

#[test]
fn names_are_listed_in_order() {
    let infos = [
        info("output.weight", &[1], 0, 0),
        info("blk.1.attn_q.weight", &[1], 0, 0),
        info("blk.0.ffn_up.weight", &[1], 0, 0),
        info("blk.2.ffn_up.weight", &[1], 0, 0),
        info("token_embd.weight", &[1], 0, 0),
        info("elsewhere", &[1], 0, 0),
    ];
    let src = GgufSource::from_bytes(build(&base_pairs(), &infos, &[], 32)).unwrap();
    assert_eq!(
        src.tensor_names(),
        vec![
            "lm_head.weight",
            "model.embed_tokens.weight",
            "model.layers.0.mlp.up_proj.weight",
            "model.layers.1.self_attn.q_proj.weight",
        ]
    );
}
