use rag_service::config::Config;

fn vars(pairs: &[(&str, &str)]) -> Vec<(String, String)> {
    pairs.iter().map(|(a, b)| (a.to_string(), b.to_string())).collect()
}

#[test]
fn everything_has_a_default() {
    let c = Config::from_env(&[]).unwrap();
    assert_eq!(c.model_path, "models/bge-small-zh-v1.5-q8_0.gguf");
    assert_eq!(c.data_dir, "data");
    assert_eq!(c.host, "127.0.0.1");
    assert_eq!(c.port, 3000);
    assert_eq!(c.n_threads, 4);
    assert_eq!(c.n_ctx, 512);
    assert_eq!(c.dim, 512);
    assert_eq!(c.bit_width, 4);
    assert_eq!(c.max_chunk_chars, 260);
    assert_eq!(c.overlap_chars, 50);
    assert!(c.store_raw_vectors);
    assert_eq!(c.lru_capacity, 1024);
}

#[test]
fn variables_set_the_configuration() {
    let c = Config::from_env(&vars(&[
        ("RAG_MODEL_PATH", "m"),
        ("RAG_DATA_DIR", "/d"),
        ("RAG_HOST", "0.0.0.0"),
        ("RAG_PORT", "65535"),
        ("RAG_N_THREADS", "-2147483648"),
        ("RAG_N_CTX", "+7"),
        ("RAG_DIM", "8"),
        ("RAG_BIT_WIDTH", "2"),
        ("RAG_MAX_CHUNK_CHARS", "1"),
        ("RAG_OVERLAP_CHARS", "0"),
        ("RAG_STORE_RAW_VECTORS", "false"),
        ("RAG_LRU_CAPACITY", "18446744073709551615"),
        ("RAG_PORT", "1"),
        ("PATH", "x"),
    ]))
    .unwrap();
    assert_eq!(c.model_path, "m");
    assert_eq!(c.data_dir, "/d");
    assert_eq!(c.host, "0.0.0.0");
    assert_eq!(c.port, 65535);
    assert_eq!(c.n_threads, i32::MIN);
    assert_eq!(c.n_ctx, 7);
    assert_eq!(c.dim, 8);
    assert_eq!(c.bit_width, 2);
    assert_eq!(c.max_chunk_chars, 1);
    assert_eq!(c.overlap_chars, 0);
    assert!(!c.store_raw_vectors);
    assert_eq!(c.lru_capacity, usize::MAX);
    let copy = c.clone();
    assert_eq!(copy.data_dir, "/d");
    assert_eq!(copy.port, 65535);
}

#[test]
fn what_cannot_be_read_is_named() {
    for (name, value, text) in [
        ("RAG_PORT", "65536", "RAG_PORT 必须是数字"),
        ("RAG_PORT", "", "RAG_PORT 必须是数字"),
        ("RAG_N_THREADS", "2147483648", "RAG_N_THREADS 必须是数字"),
        ("RAG_N_THREADS", "-", "RAG_N_THREADS 必须是数字"),
        ("RAG_N_THREADS", "-2147483649", "RAG_N_THREADS 必须是数字"),
        ("RAG_N_CTX", "-1", "RAG_N_CTX 必须是数字"),
        ("RAG_DIM", "8 ", "RAG_DIM 必须是数字"),
        ("RAG_BIT_WIDTH", "four", "RAG_BIT_WIDTH 必须是数字"),
        ("RAG_MAX_CHUNK_CHARS", "+", "RAG_MAX_CHUNK_CHARS 必须是数字"),
        ("RAG_OVERLAP_CHARS", "1.5", "RAG_OVERLAP_CHARS 必须是数字"),
        (
            "RAG_STORE_RAW_VECTORS",
            "TRUE",
            "RAG_STORE_RAW_VECTORS 必须是 true 或 false",
        ),
        ("RAG_LRU_CAPACITY", "18446744073709551616", "RAG_LRU_CAPACITY 必须是数字"),
    ] {
        match Config::from_env(&vars(&[(name, value)])) {
            Err(m) => assert_eq!(m, text),
            Ok(_) => panic!("{name}={value}"),
        }
    }
    let both = vars(&[("RAG_DIM", "x"), ("RAG_PORT", "y")]);
    assert_eq!(Config::from_env(&both).unwrap_err(), "RAG_PORT 必须是数字");
}
