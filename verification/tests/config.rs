use eyebrowse::config::config_from_hf_json;

#[test]
fn head_dim_defaults_to_hidden_over_heads() {
    let json = r#"{
        "model_type": "test",
        "hidden_size": 512,
        "num_hidden_layers": 4,
        "num_attention_heads": 8,
        "intermediate_size": 1024,
        "vocab_size": 100,
        "rms_norm_eps": 1e-5,
        "rope_theta": 10000,
        "max_position_embeddings": 2048
    }"#;
    let cfg = config_from_hf_json(json).unwrap();
    assert_eq!(cfg.head_dim, 64);
    assert_eq!(cfg.n_kv_heads, 8);
    assert!(!cfg.tie_word_embeddings);
}

#[test]
fn tolerates_float_eps_and_integer_theta() {
    let json = r#"{
        "model_type": "test",
        "hidden_size": 512,
        "num_hidden_layers": 4,
        "num_attention_heads": 8,
        "num_key_value_heads": 2,
        "head_dim": 64,
        "intermediate_size": 1024,
        "vocab_size": 100,
        "rms_norm_eps": 0.000001,
        "rope_theta": 1000000,
        "tie_word_embeddings": true,
        "max_position_embeddings": 2048
    }"#;
    let cfg = config_from_hf_json(json).unwrap();
    assert_eq!(cfg.n_kv_heads, 2);
    assert!(cfg.tie_word_embeddings);
    assert!((f32::from_bits(cfg.rope_theta) - 1_000_000.0).abs() < 1.0);
}

#[test]
fn reads_rope_theta_from_v5_rope_parameters() {
    // transformers v5 nests rope_theta under rope_parameters and omits the top-level field.
    let json = r#"{
        "model_type": "mistral",
        "hidden_size": 128,
        "num_hidden_layers": 2,
        "num_attention_heads": 4,
        "num_key_value_heads": 2,
        "head_dim": 32,
        "intermediate_size": 256,
        "vocab_size": 320,
        "rms_norm_eps": 1e-6,
        "rope_parameters": { "rope_theta": 1000000.0, "rope_type": "default" },
        "max_position_embeddings": 128
    }"#;
    let cfg = config_from_hf_json(json).unwrap();
    assert!((f32::from_bits(cfg.rope_theta) - 1_000_000.0).abs() < 1.0);
    assert_eq!(cfg.arch, "mistral");
}

#[test]
fn rejects_malformed_json() {
    assert!(config_from_hf_json("{ not json").is_err());
}

fn with(fields: &[(&str, &str)]) -> String {
    let mut all: Vec<(String, String)> = [
        ("hidden_size", "512"),
        ("num_hidden_layers", "4"),
        ("num_attention_heads", "8"),
        ("intermediate_size", "1024"),
        ("vocab_size", "100"),
        ("rms_norm_eps", "1e-5"),
        ("max_position_embeddings", "2048"),
    ]
    .iter()
    .map(|(k, v)| (k.to_string(), v.to_string()))
    .collect();
    for (k, v) in fields {
        all.retain(|e| e.0 != *k);
        if *v != "-" {
            all.push((k.to_string(), v.to_string()));
        }
    }
    let members: Vec<String> = all.iter().map(|(k, v)| format!("\"{}\": {}", k, v)).collect();
    format!("{{ {} }}", members.join(", "))
}

fn refusal(json: &str) -> String {
    config_from_hf_json(json).unwrap_err().message()
}

#[test]
fn defaults_fill_what_a_document_leaves_out() {
    let cfg = config_from_hf_json(&with(&[])).unwrap();
    assert_eq!(cfg.arch, "unknown");
    assert_eq!(f32::from_bits(cfg.rope_theta), 10000.0);
    assert_eq!(f32::from_bits(cfg.rms_eps), 1e-5);
    assert_eq!(cfg.n_kv_heads, 8);
    let nulls = with(&[
        ("model_type", "null"),
        ("head_dim", "null"),
        ("num_key_value_heads", "null"),
        ("rope_theta", "null"),
        ("rope_parameters", "null"),
    ]);
    let cfg = config_from_hf_json(&nulls).unwrap();
    assert_eq!((cfg.arch.as_str(), cfg.head_dim, cfg.n_kv_heads), ("unknown", 64, 8));
}

#[test]
fn a_configuration_may_be_a_list_of_its_fields() {
    let list = r#"["llama", 512, 4, 8, null, 32, 1024, 100, 1e-5, null, [5000], true, 2048]"#;
    let cfg = config_from_hf_json(list).unwrap();
    assert_eq!(cfg.arch, "llama");
    assert_eq!((cfg.hidden, cfg.n_layers, cfg.n_heads, cfg.n_kv_heads), (512, 4, 8, 8));
    assert_eq!((cfg.head_dim, cfg.intermediate, cfg.vocab, cfg.max_seq), (32, 1024, 100, 2048));
    assert_eq!(f32::from_bits(cfg.rope_theta), 5000.0);
    assert!(cfg.tie_word_embeddings);
    assert!(cfg.extra.is_array());

    let head = r#"["llama", 512, 4, 8, null, 32, 1024, 100, 1e-5"#;
    for (tail, words) in [
        ("]", "invalid length 12, expected struct HfConfig with 13 elements"),
        (", 1, null, false]", "invalid length 12, expected struct HfConfig with 13 elements"),
        (", 1, null, false, 64, 0]", "trailing characters"),
        (", 1, null, null, 64]", "invalid field tie_word_embeddings"),
        (", 1, [], false, 64]", "invalid length 0, expected struct RopeParameters with 1 element"),
        (", 1, [1, 2], false, 64]", "trailing characters"),
        (", 1, [\"x\"], false, 64]", "invalid field rope_theta"),
    ] {
        assert_eq!(
            refusal(&format!("{}{}", head, tail)),
            format!("load error: config.json: {}", words)
        );
    }
    assert_eq!(
        refusal("[null, 512]"),
        "load error: config.json: invalid length 2, expected struct HfConfig with 13 elements"
    );
}

#[test]
fn the_own_base_counts_before_the_nested_one() {
    let both = with(&[("rope_theta", "500000"), ("rope_parameters", "{\"rope_theta\": 7.5}")]);
    assert_eq!(f32::from_bits(config_from_hf_json(&both).unwrap().rope_theta), 500000.0);
    let empty = with(&[("rope_parameters", "{}")]);
    assert_eq!(f32::from_bits(config_from_hf_json(&empty).unwrap().rope_theta), 10000.0);
}

#[test]
fn fields_that_are_missing_or_of_the_wrong_kind_are_refused() {
    assert_eq!(refusal("7"), "load error: config.json: expected struct HfConfig");
    assert!(refusal("{ not json").starts_with("load error: config.json: key must be a string"));
    for key in [
        "hidden_size",
        "num_hidden_layers",
        "num_attention_heads",
        "intermediate_size",
        "vocab_size",
        "rms_norm_eps",
        "max_position_embeddings",
    ] {
        assert_eq!(
            refusal(&with(&[(key, "-")])),
            format!("load error: config.json: missing field `{}`", key)
        );
        assert_eq!(
            refusal(&with(&[(key, "\"many\"")])),
            format!("load error: config.json: invalid field {}", key)
        );
        assert_eq!(
            refusal(&with(&[(key, "null")])),
            format!("load error: config.json: invalid field {}", key)
        );
    }
    for (key, value) in [
        ("hidden_size", "-1"),
        ("hidden_size", "1.0"),
        ("model_type", "3"),
        ("num_key_value_heads", "true"),
        ("head_dim", "0.5"),
        ("rope_theta", "\"x\""),
        ("rope_parameters", "4"),
        ("tie_word_embeddings", "null"),
    ] {
        assert_eq!(
            refusal(&with(&[(key, value)])),
            format!("load error: config.json: invalid field {}", key)
        );
    }
    assert_eq!(
        refusal(&with(&[("num_attention_heads", "0")])),
        "load error: config.json: num_attention_heads is zero"
    );
}

#[test]
fn architecture_specific_settings_are_kept() {
    let json = with(&[
        ("hidden_size_per_layer_input", "0"),
        ("num_experts", "null"),
        ("enable_moe_block", "false"),
        ("global_head_dim", "512"),
        ("layer_types", "[\"sliding_attention\", 5, \"full_attention\"]"),
        (
            "rope_parameters",
            "{\"sliding_attention\": {\"rope_theta\": 10000}, \"full_attention\": {\"rope_theta\": 1e6, \"partial_rotary_factor\": 0.25}}",
        ),
        ("final_logit_softcapping", "30.0"),
    ]);
    let cfg = config_from_hf_json(&json).unwrap();
    assert_eq!(cfg.extra, serde_json::from_str::<serde_json::Value>(&json).unwrap());
    assert_eq!(cfg.clone().extra, cfg.extra);
    let e = cfg.settings();
    assert_eq!(e.hidden_size_per_layer_input, Some(0));
    assert_eq!(e.num_experts, None);
    assert_eq!(e.enable_moe_block, Some(false));
    assert_eq!(e.global_head_dim, Some(512));
    assert_eq!(
        e.layer_types,
        Some(vec![
            Some("sliding_attention".to_string()),
            None,
            Some("full_attention".to_string())
        ])
    );
    assert_eq!(e.local_rope_theta.map(f64::from_bits), Some(10000.0));
    assert_eq!(e.global_rope_theta.map(f64::from_bits), Some(1e6));
    assert_eq!(e.partial_rotary_factor.map(f64::from_bits), Some(0.25));
    assert_eq!(e.final_logit_softcapping.map(f64::from_bits), Some(30.0));
}
