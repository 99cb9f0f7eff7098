use std::collections::HashMap;

use eyebrowse::config::config_from_hf_json;
use eyebrowse::source::{
    choose_layout, index_from_json, map_dtype, shard_files, Layout, RawDType, SafeTensorsSource,
    WeightSource,
};
use eyebrowse::tokenizer::{decode, decoded, encode, encoded};

const CONFIG: &str = r#"{
    "model_type": "test",
    "hidden_size": 4,
    "num_hidden_layers": 1,
    "num_attention_heads": 2,
    "num_key_value_heads": 1,
    "head_dim": 2,
    "intermediate_size": 8,
    "vocab_size": 16,
    "rms_norm_eps": 1e-5,
    "rope_theta": 10000,
    "max_position_embeddings": 128
}"#;

fn archive(tensors: &[(&str, safetensors::Dtype, Vec<usize>, &[u8])]) -> Vec<u8> {
    let mut map: HashMap<String, safetensors::tensor::TensorView> = HashMap::new();
    for (name, dtype, shape, data) in tensors {
        let view = safetensors::tensor::TensorView::new(*dtype, shape.clone(), data).unwrap();
        map.insert(name.to_string(), view);
    }
    safetensors::serialize(&map, None).unwrap()
}

#[test]
fn safetensors_round_trip() {
    let a: Vec<f32> = vec![1.0, 2.0, 3.0, 4.0, 5.0, 6.0];
    let b: Vec<f32> = vec![-1.5, 0.5];
    let a_bytes: Vec<u8> = a.iter().flat_map(|v| v.to_le_bytes()).collect();
    let b_bytes: Vec<u8> = b.iter().flat_map(|v| v.to_le_bytes()).collect();
    let serialized = archive(&[
        ("alpha", safetensors::Dtype::F32, vec![2, 3], &a_bytes),
        ("beta", safetensors::Dtype::F32, vec![2], &b_bytes),
    ]);

    let source =
        SafeTensorsSource::from_bytes(config_from_hf_json(CONFIG).unwrap(), serialized).unwrap();

    let mut names = source.tensor_names();
    names.sort();
    assert_eq!(names, vec!["alpha".to_string(), "beta".to_string()]);

    let ra = source.raw("alpha").unwrap();
    assert_eq!(ra.dtype, RawDType::F32);
    assert_eq!(ra.shape, vec![2, 3]);
    assert_eq!(ra.bytes, a_bytes);

    let rb = source.raw("beta").unwrap();
    assert_eq!(rb.dtype, RawDType::F32);
    assert_eq!(rb.shape, vec![2]);
    assert_eq!(rb.bytes, b_bytes);

    assert_eq!(source.config().hidden, 4);
    assert!(source.raw("missing").is_err());
}

#[test]
fn sharded_weights_are_found_through_the_index() {
    let index = r#"{ "metadata": {}, "weight_map": { "a": "one.safetensors", "b/~c": "two.safetensors",
        "d": "one.safetensors", "gone": "three.safetensors", "lost": "two.safetensors" } }"#;
    let map = index_from_json(index).unwrap();
    assert_eq!(map.len(), 5);
    let mut files = shard_files(&map);
    assert_eq!(files.len(), 3);
    files.sort();
    assert_eq!(files, vec!["one.safetensors", "three.safetensors", "two.safetensors"]);

    let one = archive(&[
        ("a", safetensors::Dtype::BF16, vec![2], &[1, 2, 3, 4]),
        ("d", safetensors::Dtype::U16, vec![1], &[5, 6]),
    ]);
    let two = archive(&[("b/~c", safetensors::Dtype::I64, vec![1, 1], &[1, 0, 0, 0, 0, 0, 0, 0])]);
    let source = SafeTensorsSource::from_shards(
        config_from_hf_json(CONFIG).unwrap(),
        map,
        vec![("one.safetensors".to_string(), one), ("two.safetensors".to_string(), two)],
    );
    assert_eq!(source.tensor_names(), vec!["a", "b/~c", "d", "gone", "lost"]);
    assert_eq!(source.raw("a").unwrap().dtype, RawDType::BF16);
    let b = source.raw("b/~c").unwrap();
    assert_eq!((b.dtype, b.shape, b.bytes), (RawDType::I64, vec![1, 1], vec![1, 0, 0, 0, 0, 0, 0, 0]));
    assert_eq!(
        source.raw("d").unwrap_err().message(),
        "unsupported config field: safetensors dtype U16"
    );
    assert_eq!(
        source.raw("gone").unwrap_err().message(),
        "load error: missing shard three.safetensors"
    );
    assert_eq!(
        source.raw("lost").unwrap_err().message(),
        "load error: tensor lost: tensor `lost` not found"
    );
    assert_eq!(source.raw("other").unwrap_err().message(), "load error: unknown tensor other");
}

#[test]
fn files_that_cannot_be_parsed_are_refused() {
    let cfg = config_from_hf_json(CONFIG).unwrap();
    let e = match SafeTensorsSource::from_bytes(cfg, vec![1, 2, 3]) {
        Ok(_) => panic!("accepted"),
        Err(e) => e,
    };
    assert_eq!(e.message(), "load error: parsing model.safetensors: header too small");
    let source = SafeTensorsSource::from_shards(
        config_from_hf_json(CONFIG).unwrap(),
        vec![("a".to_string(), "s".to_string())],
        vec![("s".to_string(), vec![])],
    );
    assert_eq!(source.raw("a").unwrap_err().message(), "load error: parsing s: header too small");
}

#[test]
fn indexes_that_are_not_maps_of_texts_are_refused() {
    assert!(index_from_json("{").unwrap_err().message().starts_with("load error: parsing index.json: "));
    for (json, words) in [
        ("{}", "load error: parsing index.json: missing field `weight_map`"),
        (
            "[]",
            "load error: parsing index.json: invalid length 0, expected struct IndexFile with 1 element",
        ),
        ("[{}, 1]", "load error: parsing index.json: trailing characters"),
        ("{\"weight_map\": 1}", "load error: parsing index.json: invalid field weight_map"),
        ("{\"weight_map\": {\"a\": 1}}", "load error: parsing index.json: invalid field weight_map"),
    ] {
        assert_eq!(index_from_json(json).unwrap_err().message(), words);
    }
    assert_eq!(index_from_json("{\"weight_map\": {}}").unwrap().len(), 0);
    let listed = index_from_json("[{\"a\": \"one\"}]").unwrap();
    assert_eq!(listed, vec![("a".to_string(), "one".to_string())]);
}

#[test]
fn an_index_counts_before_a_single_file() {
    assert_eq!(choose_layout(true, true, "d").unwrap(), Layout::Sharded);
    assert_eq!(choose_layout(true, false, "d").unwrap(), Layout::Sharded);
    assert_eq!(choose_layout(false, true, "d").unwrap(), Layout::Single);
    assert_eq!(
        choose_layout(false, false, "d").unwrap_err().message(),
        "load error: no model.safetensors or model.safetensors.index.json in d"
    );
}

#[test]
fn element_types_are_known_by_name() {
    for (name, dtype) in [
        ("F32", RawDType::F32),
        ("F16", RawDType::F16),
        ("BF16", RawDType::BF16),
        ("U8", RawDType::U8),
        ("I8", RawDType::I8),
        ("I32", RawDType::I32),
        ("I64", RawDType::I64),
    ] {
        assert_eq!(map_dtype(name).unwrap(), dtype);
    }
    assert_eq!(
        map_dtype("F8_E4M3").unwrap_err().message(),
        "unsupported config field: safetensors dtype F8_E4M3"
    );
}

#[test]
fn tokenizer_round_trip() {
    // A word-level tokenizer stands for one that is loaded from a file.
    let json = r#"{
        "version": "1.0", "truncation": null, "padding": null, "added_tokens": [],
        "normalizer": null, "pre_tokenizer": { "type": "WhitespaceSplit" },
        "post_processor": null, "decoder": null,
        "model": { "type": "WordLevel", "vocab": { "Hello,": 0, "world!": 1, "?": 2 }, "unk_token": "?" }
    }"#;
    let tok = tokenizers::Tokenizer::from_bytes(json.as_bytes()).unwrap();

    let text = "Hello, world!";
    let ids = encode(&tok, text).unwrap();
    assert!(!ids.is_empty());
    assert_eq!(ids, vec![0, 1]);

    let text_again = decode(&tok, &ids).unwrap();
    assert!(text_again.contains("Hello, world!"));
}

/// A word-level tokenizer with these parts in place of the absent ones.
fn tokenizer(parts: &[(&str, &str)]) -> tokenizers::Tokenizer {
    let part = |name: &str| parts.iter().find(|p| p.0 == name).map_or("null", |p| p.1);
    let added = parts.iter().find(|p| p.0 == "added_tokens").map_or("[]", |p| p.1);
    let json = format!(
        r#"{{ "version": "1.0", "truncation": {}, "padding": {}, "added_tokens": {},
            "normalizer": {}, "pre_tokenizer": {}, "post_processor": {}, "decoder": {},
            "model": {{ "type": "WordLevel", "vocab": {{ "a": 0, "b": 1, "?": 2, "": 3, "x": 4 }},
                "unk_token": "?" }} }}"#,
        part("truncation"),
        part("padding"),
        added,
        part("normalizer"),
        part("pre_tokenizer"),
        part("post_processor"),
        part("decoder")
    );
    tokenizers::Tokenizer::from_bytes(json.as_bytes()).unwrap()
}

fn sequence(list: &str, parts: &[&str]) -> String {
    format!(r#"{{ "type": "Sequence", "{}": [{}] }}"#, list, parts.join(", "))
}

const SPLIT: &str = r#"{ "type": "WhitespaceSplit" }"#;

#[test]
fn tokenizers_of_many_parts_encode() {
    let pattern = r#"{ "type": "Split", "pattern": { "Regex": "\\s+(?!\\S)|\\s+" },
        "behavior": "Removed", "invert": false }"#;
    let chunks = r#"{ "type": "FixedLength", "length": 1 }"#;
    let template = r#"{ "type": "TemplateProcessing",
        "single": [ { "SpecialToken": { "id": "x", "type_id": 0 } },
            { "Sequence": { "id": "A", "type_id": 0 } } ],
        "pair": [ { "Sequence": { "id": "A", "type_id": 0 } },
            { "Sequence": { "id": "B", "type_id": 0 } } ],
        "special_tokens": { "x": { "id": "x", "ids": [4], "tokens": ["x"] } } }"#;
    let byte_level =
        r#"{ "type": "ByteLevel", "add_prefix_space": false, "trim_offsets": true, "use_regex": true }"#;
    let replace = r#"{ "type": "Replace", "pattern": { "String": "c" }, "content": "b" }"#;
    let lower = r#"{ "type": "Lowercase" }"#;
    let tok = tokenizer(&[
        ("normalizer", &sequence("normalizers", &[lower, replace])),
        ("pre_tokenizer", &sequence("pretokenizers", &[pattern, chunks])),
        ("post_processor", &sequence("processors", &[byte_level, template])),
        ("truncation", r#"{ "direction": "Right", "max_length": 3, "strategy": "LongestFirst", "stride": 1 }"#),
    ]);
    assert_eq!(encode(&tok, "A  Ca  b").unwrap(), vec![0, 1, 0]);
    assert_eq!(encode(&tok, "").unwrap(), Vec::<u32>::new());

    let tok = tokenizer(&[
        ("pre_tokenizer", SPLIT),
        (
            "padding",
            r#"{ "strategy": { "Fixed": 4 }, "direction": "Right", "pad_to_multiple_of": null,
                "pad_id": 2, "pad_type_id": 0, "pad_token": "?" }"#,
        ),
    ]);
    assert_eq!(encode(&tok, "a b").unwrap(), vec![0, 1, 2, 2]);
}

#[test]
fn tokenizers_that_cannot_encode_every_text_are_refused() {
    let refused = |parts: &[(&str, &str)]| {
        let tok = tokenizer(parts);
        assert_eq!(
            encode(&tok, "a b").unwrap_err().message(),
            "load error: encode: unsupported tokenizer"
        );
    };
    let chunks = r#"{ "type": "FixedLength", "length": 0 }"#;
    refused(&[("pre_tokenizer", chunks)]);
    refused(&[("pre_tokenizer", &sequence("pretokenizers", &[SPLIT, chunks]))]);
    refused(&[(
        "truncation",
        r#"{ "direction": "Right", "max_length": 1, "strategy": "LongestFirst", "stride": 1 }"#,
    )]);
    refused(&[(
        "padding",
        r#"{ "strategy": { "Fixed": 18446744073709551615 }, "direction": "Right",
            "pad_to_multiple_of": null, "pad_id": 0, "pad_type_id": 0, "pad_token": "?" }"#,
    )]);
    refused(&[(
        "post_processor",
        r#"{ "type": "TemplateProcessing", "single": [ { "Sequence": { "id": "B", "type_id": 0 } } ],
            "pair": [], "special_tokens": {} }"#,
    )]);
    refused(&[("normalizer", r#"{ "type": "Prepend", "prepend": "" }"#)]);
    refused(&[(
        "pre_tokenizer",
        r#"{ "type": "Split", "pattern": { "Regex": "a(?= b\\K)" }, "behavior": "Isolated", "invert": false }"#,
    )]);
    let token = |id: u32, content: &str, l: bool, r: bool| {
        format!(
            r#"{{ "id": {}, "content": "{}", "single_word": false, "lstrip": {}, "rstrip": {},
                "normalized": false, "special": false }}"#,
            id, content, l, r
        )
    };
    let both = format!("[{}, {}]", token(5, "q", false, true), token(6, " ", true, false));
    refused(&[("added_tokens", &both)]);
    let one = format!("[{}]", token(5, "q", false, true));
    assert_eq!(encode(&tokenizer(&[("added_tokens", &one)]), "q ").unwrap(), vec![5]);
    let apart = format!("[{}, {}]", token(5, "q", false, true), token(6, "<m>", true, false));
    assert_eq!(
        encode(&tokenizer(&[("added_tokens", &apart)]), "q  <m>a").unwrap(),
        vec![5, 6, 0]
    );
    for pattern in ["c*", "c|", "(?=c)", "c{0,2}", "^", ""] {
        let replace = format!(
            r#"{{ "type": "Replace", "pattern": {{ "Regex": "{pattern}" }}, "content": "b" }}"#
        );
        refused(&[("normalizer", &replace)]);
    }
}

#[test]
fn expressions_that_take_in_a_character_may_normalize() {
    let chunks = r#"{ "type": "FixedLength", "length": 1 }"#;
    for (pattern, text) in [
        ("[cd]+", "acdca"),
        ("c{2,}", "acca"),
        (r"\\s+", "a \t a"),
        ("c", "aca"),
    ] {
        let replace = format!(
            r#"{{ "type": "Replace", "pattern": {{ "Regex": "{pattern}" }}, "content": "b" }}"#
        );
        let tok = tokenizer(&[
            ("normalizer", &sequence("normalizers", &[&replace, r#"{ "type": "Lowercase" }"#])),
            ("pre_tokenizer", chunks),
        ]);
        assert_eq!(encode(&tok, text).unwrap(), vec![0, 1, 0]);
    }
}

#[test]
fn an_escaped_backslash_resets_no_match() {
    let split = r#"{ "type": "Split", "pattern": { "Regex": "\\\\K" },
        "behavior": "Isolated", "invert": false }"#;
    let tok = tokenizer(&[("pre_tokenizer", split)]);
    assert_eq!(encode(&tok, r"a\Kb").unwrap(), vec![0, 2, 1]);
}

#[test]
fn the_expression_in_use_splits_a_text() {
    let split = |pattern: &str, regex: &str| {
        let behavior = tokenizers::SplitDelimiterBehavior::Isolated;
        let mut split = tokenizers::pre_tokenizers::split::Split::new("x", behavior, false).unwrap();
        split.pattern = tokenizers::pre_tokenizers::split::SplitPattern::Regex(pattern.to_string());
        split.regex = tokenizers::utils::SysRegex::new(regex).unwrap();
        let mut tok = tokenizer(&[]);
        tok.with_pre_tokenizer(Some(split));
        tok
    };
    // The pattern beside the expression need not even compile.
    assert_eq!(encode(&split("(", "a"), "bab").unwrap(), vec![1, 0, 1]);
    assert_eq!(encode(&split(r"a(?= b\K)", "a"), "bab").unwrap(), vec![1, 0, 1]);
    assert_eq!(
        encode(&split("a", r"a(?= b\K)"), "bab").unwrap_err().message(),
        "load error: encode: unsupported tokenizer"
    );
}

#[test]
fn models_without_chance_encode_alike_each_time() {
    let bpe = |dropout: &str| {
        let json = format!(
            r#"{{ "version": "1.0", "truncation": null, "padding": null, "added_tokens": [],
                "normalizer": null, "pre_tokenizer": null, "post_processor": null, "decoder": null,
                "model": {{ "type": "BPE", "dropout": {dropout}, "unk_token": null,
                    "continuing_subword_prefix": null, "end_of_word_suffix": null,
                    "fuse_unk": false, "vocab": {{ "a": 0, "b": 1, "ab": 2 }},
                    "merges": ["a b"] }} }}"#
        );
        tokenizers::Tokenizer::from_bytes(json.as_bytes()).unwrap()
    };
    let tok = bpe("null");
    assert_eq!(encode(&tok, "abab").unwrap(), vec![2, 2]);
    assert_eq!(encode(&tok, "abab").unwrap(), vec![2, 2]);
    // At the largest chance every merge is dropped.
    assert_eq!(encode(&bpe("1.0"), "abab").unwrap(), vec![0, 1, 0, 1]);
}

#[test]
fn models_that_sample_are_refused() {
    let pieces = vec![("?".to_string(), 0.0), ("a".to_string(), -1.0), ("b".to_string(), -2.0)];
    let mut model = tokenizers::models::unigram::Unigram::from(pieces, Some(0), false).unwrap();
    assert_eq!(encode(&tokenizers::Tokenizer::new(model.clone()), "ab").unwrap(), vec![1, 2]);
    model.alpha = Some(0.5);
    assert_eq!(
        encode(&tokenizers::Tokenizer::new(model), "ab").unwrap_err().message(),
        "load error: encode: unsupported tokenizer"
    );
}

#[test]
fn tokenizers_that_cannot_decode_the_ids_are_refused() {
    let strip = |start: usize, stop: usize| {
        format!(r#"{{ "type": "Strip", "content": "x", "start": {}, "stop": {} }}"#, start, stop)
    };
    let fuse = r#"{ "type": "Fuse" }"#;
    let bpe = r#"{ "type": "BPEDecoder", "suffix": "b" }"#;
    let refused = |decoder: &str, ids: &[u32]| {
        assert_eq!(
            decode(&tokenizer(&[("decoder", decoder)]), ids).unwrap_err().message(),
            "load error: decode: unsupported tokenizer"
        );
    };
    let gives = |decoder: &str, ids: &[u32], text: &str| {
        assert_eq!(decode(&tokenizer(&[("decoder", decoder)]), ids).unwrap(), text);
    };
    // An original BPE decoder works on some token; id 99 is none.
    refused(bpe, &[]);
    refused(bpe, &[99]);
    gives(bpe, &[0, 1, 4, 1], "a x");
    // Cuts at the end work on tokens that survive them.
    gives(&strip(0, 1), &[], "");
    gives(&strip(0, 1), &[0, 4, 99], "a");
    refused(&strip(0, 1), &[0, 3]);
    refused(&strip(1, 1), &[4]);
    gives(&strip(1, 1), &[0, 1], "ab");
    for ids in [vec![], vec![3], vec![0]] {
        refused(&sequence("decoders", &[fuse, &strip(1, 1)]), &ids);
        refused(&sequence("decoders", &[bpe]), &ids);
    }
    let cut_and_fuse = sequence("decoders", &[&strip(1, 0), fuse]);
    gives(&cut_and_fuse, &[4, 3, 0, 99], "a");
    gives(&cut_and_fuse, &[], "");
}

#[test]
fn special_tokens_are_skipped() {
    let added = r#"[{ "id": 4, "content": "x", "single_word": false, "lstrip": false,
        "rstrip": false, "normalized": false, "special": true }]"#;
    let tok = tokenizer(&[("added_tokens", added)]);
    assert_eq!(decode(&tok, &[0, 4, 1]).unwrap(), "a b");
    let tok = tokenizer(&[
        ("added_tokens", added),
        ("decoder", r#"{ "type": "BPEDecoder", "suffix": "b" }"#),
    ]);
    assert_eq!(
        decode(&tok, &[4]).unwrap_err().message(),
        "load error: decode: unsupported tokenizer"
    );
    assert_eq!(decode(&tok, &[0, 4]).unwrap(), "a");
}

#[test]
fn tokenizer_failures_are_load_errors() {
    assert_eq!(encoded(Ok(vec![7])).unwrap(), vec![7]);
    assert_eq!(encoded(Err("x".to_string())).unwrap_err().message(), "load error: encode: x");
    assert_eq!(decoded(Ok("t".to_string())).unwrap(), "t");
    assert_eq!(decoded(Err("y".to_string())).unwrap_err().message(), "load error: decode: y");
}

fn with_header(header: &str, data: &[u8]) -> Vec<u8> {
    let mut bytes = (header.len() as u64).to_le_bytes().to_vec();
    bytes.extend_from_slice(header.as_bytes());
    bytes.extend_from_slice(data);
    bytes
}

fn refusal(bytes: Vec<u8>) -> String {
    match SafeTensorsSource::from_bytes(config_from_hf_json(CONFIG).unwrap(), bytes) {
        Ok(_) => "opened".to_string(),
        Err(e) => e.message(),
    }
}

#[test]
fn archives_whose_tensors_end_behind_them_are_refused() {
    let short = r#"{"t":{"dtype":"U8","shape":[4],"data_offsets":[0,4]}}"#;
    let refused = "load error: parsing model.safetensors: incomplete metadata, file not fully covered";
    assert_eq!(refusal(with_header(short, &[1, 2, 3, 4])), "opened");
    assert_eq!(refusal(with_header(short, &[1, 2, 3])), refused);

    // Sizes that do not add up in a machine word.
    let n = u64::MAX / 8;
    let parts: Vec<String> = (0..8)
        .map(|i| {
            format!(
                r#""t{i}":{{"dtype":"U8","shape":[{n}],"data_offsets":[{},{}]}}"#,
                i * n,
                (i + 1) * n
            )
        })
        .collect();
    assert_eq!(refusal(with_header(&format!("{{{}}}", parts.join(",")), &[])), refused);
    let listed = r#"{"t":["U8",[4],[0,400]]}"#;
    assert_eq!(refusal(with_header(listed, &[1, 2, 3, 4])), refused);
}

#[test]
fn unknown_members_of_an_entry_do_not_count() {
    let header = r#"{"t":{"dtype":"U8","shape":[4],"data_offsets":[0,4],"2":[0,400]}}"#;
    assert_eq!(refusal(with_header(header, &[1, 2, 3, 4])), "opened");
    let header = r#"{"t":{"dtype":"U8","shape":[4],"data_offsets":[0,4],"2":[0,4]}}"#;
    assert_eq!(refusal(with_header(header, &[1, 2, 3, 4])), "opened");
}

#[test]
fn archives_without_a_header_are_refused() {
    assert!(refusal(vec![1, 2, 3]).starts_with("load error: parsing model.safetensors: "));
    assert!(refusal(with_header("{", &[])).starts_with("load error: parsing model.safetensors: "));
    assert!(refusal(vec![0xFF; 16]).starts_with("load error: parsing model.safetensors: "));
}

#[test]
fn a_single_file_lists_its_tensors_in_order() {
    let header = r#"{"b":{"dtype":"U8","shape":[1],"data_offsets":[0,1]},
        "a":{"dtype":"U8","shape":[2],"data_offsets":[1,3]}}"#;
    let src = SafeTensorsSource::from_bytes(
        config_from_hf_json(CONFIG).unwrap(),
        with_header(header, &[7, 8, 9]),
    )
    .unwrap();
    assert_eq!(src.tensor_names(), vec!["a", "b"]);
    assert_eq!(src.raw("a").unwrap().bytes, vec![8, 9]);
    assert_eq!(src.raw("b").unwrap().bytes, vec![7]);
}
