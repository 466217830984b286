use rag_service::embed_job::{prepare_texts, EmbedAction, EmbedJob};
use rag_service::embedding::{
    pack_batches, truncate_tokens, validate, with_query_prefix, EmbedError, EmbedderInfo,
    ModelStart, QUERY_PREFIX,
};

fn bits(v: &[f32]) -> Vec<u32> {
    v.iter().map(|x| x.to_bits()).collect()
}

#[test]
fn prefix_only_for_query() {
    assert_eq!(with_query_prefix("你好"), format!("{QUERY_PREFIX}你好"));
    assert_eq!(
        with_query_prefix("你好"),
        "为这个句子生成表示以用于检索相关文章：你好"
    );
}

#[test]
fn truncate_short_text_unchanged() {
    let t = vec![1, 2, 3];
    assert_eq!(truncate_tokens(t, 10), vec![1, 2, 3]);
}

#[test]
fn truncate_long_text() {
    assert_eq!(truncate_tokens(vec![1, 2, 3, 4, 5], 3), vec![1, 2, 3]);
}

#[test]
fn validate_rejects_nan() {
    assert!(validate(&bits(&[1.0, f32::NAN])).is_err());
    assert!(validate(&bits(&[1.0, 2.0])).is_ok());
}

#[test]
fn validate_rejects_infinities() {
    for x in [f32::INFINITY, f32::NEG_INFINITY] {
        assert!(matches!(validate(&bits(&[x])), Err(EmbedError::NonFinite)));
    }
    assert!(validate(&bits(&[f32::MAX, f32::MIN, -0.0, 1.0e-45])).is_ok());
    assert!(validate(&[]).is_ok());
}

#[test]
fn pack_respects_token_budget() {
    let counts = [300, 300, 50];
    let groups = pack_batches(&counts, 512, 16);
    assert_eq!(groups, vec![vec![0], vec![1, 2]]);
}

#[test]
fn pack_respects_seq_limit() {
    let counts = [40; 20];
    let groups = pack_batches(&counts, 512, 16);
    assert_eq!(groups.len(), 2);
    assert_eq!(groups[0].len(), 12, "token 预算优先于序列数上限");
    assert_eq!(groups[1].len(), 8);
}

#[test]
fn pack_handles_the_edges() {
    assert_eq!(pack_batches(&[], 512, 16), Vec::<Vec<usize>>::new());
    assert_eq!(pack_batches(&[0, 0, 0], 2, 16), vec![vec![0, 1], vec![2]]);
    assert_eq!(pack_batches(&[9, 1, 1], 4, 16), vec![vec![0], vec![1, 2]]);
    assert_eq!(pack_batches(&[1, 1, 1], 99, 2), vec![vec![0, 1], vec![2]]);
    assert_eq!(pack_batches(&[1, 1], 99, 0), vec![vec![0], vec![1]]);
    assert_eq!(
        pack_batches(&[usize::MAX, usize::MAX], usize::MAX, 16),
        vec![vec![0], vec![1]]
    );
}

#[test]
fn only_queries_get_the_instruction() {
    let texts = vec!["一".to_string(), "二".to_string()];
    assert_eq!(prepare_texts(&texts, false), texts);
    assert_eq!(
        prepare_texts(&texts, true),
        vec![format!("{QUERY_PREFIX}一"), format!("{QUERY_PREFIX}二")]
    );
}

/// A model whose vector for a text is the sum of its tokens.
fn run(job: EmbedJob) -> Result<(Vec<Vec<u32>>, Vec<bool>), EmbedError> {
    let mut job = job;
    let mut sums: Vec<i32> = Vec::new();
    loop {
        job = match job.action() {
            EmbedAction::Encode(entries, n) => {
                sums = vec![0; n as usize];
                let mut next = vec![0; n as usize];
                for e in entries {
                    assert_eq!(e.pos, next[e.seq as usize]);
                    next[e.seq as usize] += 1;
                    sums[e.seq as usize] += e.token;
                }
                job.encoded(Ok(()))?
            }
            EmbedAction::Read(n) => job.read(Ok(bits(&[sums[n as usize] as f32])))?,
            EmbedAction::Clear => job.cleared()?,
            EmbedAction::Finish => return Ok(job.finish()),
        };
    }
}

#[test]
fn each_text_gets_its_own_vector_in_order() {
    let tokens: Vec<Result<Vec<i32>, String>> = (0..40).map(|i| Ok(vec![i, 1, 2])).collect();
    let job = EmbedJob::new(&tokens, 512, 30).unwrap();
    let (vectors, truncated) = run(job).unwrap();
    assert_eq!(vectors.len(), 40);
    for (i, v) in vectors.iter().enumerate() {
        assert_eq!(*v, bits(&[i as f32 + 3.0]));
    }
    assert_eq!(truncated, vec![false; 40]);
}

#[test]
fn long_texts_are_cut() {
    let tokens = vec![Ok(vec![1, 1, 1]), Ok(vec![5, 5, 5, 5]), Ok(vec![])];
    let job = EmbedJob::new(&tokens, 3, 512).unwrap();
    let (vectors, truncated) = run(job).unwrap();
    assert_eq!(vectors, vec![bits(&[3.0]), bits(&[15.0]), bits(&[0.0])]);
    assert_eq!(truncated, vec![false, true, false]);
}

#[test]
fn no_texts_need_nothing() {
    let job = EmbedJob::new(&Vec::new(), 512, 512).unwrap();
    assert!(matches!(job.action(), EmbedAction::Finish));
    assert_eq!(run(job).unwrap(), (Vec::new(), Vec::new()));
}

#[test]
fn what_the_model_refuses_is_passed_on() {
    let tokens = vec![Ok(vec![1]), Err("first".to_string()), Err("second".to_string())];
    match EmbedJob::new(&tokens, 512, 512) {
        Err(e) => assert_eq!(e.message(), "推理失败: first"),
        Ok(_) => panic!("started"),
    }
    let good = vec![Ok(vec![1]), Ok(vec![2])];
    let job = EmbedJob::new(&good, 512, 512).unwrap();
    match job.encoded(Err("encode".to_string())) {
        Err(e) => assert_eq!(e.message(), "推理失败: encode"),
        Ok(_) => panic!("encoded"),
    }
    let job = EmbedJob::new(&good, 512, 512).unwrap().encoded(Ok(())).unwrap();
    match job.read(Err("read".to_string())) {
        Err(e) => assert_eq!(e.message(), "推理失败: read"),
        Ok(_) => panic!("read"),
    }
}

#[test]
fn vectors_are_checked_after_the_whole_batch() {
    let good = vec![Ok(vec![1]), Ok(vec![2])];
    let job = EmbedJob::new(&good, 512, 512).unwrap().encoded(Ok(())).unwrap();
    let job = job.read(Ok(bits(&[f32::NAN]))).unwrap();
    assert!(matches!(job.action(), EmbedAction::Read(1)));
    let job = job.read(Ok(bits(&[1.0]))).unwrap();
    assert!(matches!(job.action(), EmbedAction::Clear));
    assert!(matches!(job.cleared(), Err(EmbedError::NonFinite)));
}

#[test]
fn a_model_that_did_not_load_says_why() {
    for (start, text) in [
        (ModelStart::NoBackend("x".into()), "llama backend 初始化失败: x"),
        (ModelStart::NoModel("x".into()), "模型加载失败（m.gguf）: x"),
        (ModelStart::NoContext("x".into()), "创建 context 失败: x"),
    ] {
        let info = EmbedderInfo::started("m.gguf", 4, start);
        assert!(!info.ready);
        assert_eq!(info.error.as_deref(), Some(text));
        assert_eq!(info.dim, None);
        match info.check_ready() {
            Err(e) => assert_eq!(e.message(), format!("推理失败: {text}")),
            Ok(_) => panic!("ready"),
        }
    }
}

#[test]
fn a_loaded_model_is_described() {
    let start = ModelStart::Loaded(Some(" bge \n".into()), 512, 24_000_000, 4096);
    let info = EmbedderInfo::started("m.gguf", 4, start);
    assert!(info.ready);
    assert!(info.check_ready().is_ok());
    assert_eq!(info.model_name.as_deref(), Some("bge"));
    assert_eq!(info.dim, Some(512));
    assert_eq!(info.n_params, Some(24_000_000));
    assert_eq!(info.n_threads, Some(4));
    assert_eq!(info.n_ctx, Some(4096));
    assert_eq!(info.error, None);
    let copy = info.clone();
    assert_eq!(copy.model_name.as_deref(), Some("bge"));
}

#[test]
fn a_silent_thread_is_unavailable() {
    let info = EmbedderInfo::unanswered(false);
    assert_eq!(info.error.as_deref(), Some("嵌入线程未运行"));
    let info = EmbedderInfo::unanswered(true);
    assert_eq!(info.error.as_deref(), Some("嵌入线程已退出"));
    let mut info = EmbedderInfo::unavailable("r".into());
    assert_eq!(info.error.as_deref(), Some("r"));
    info.error = None;
    match info.check_ready() {
        Err(e) => assert_eq!(e.message(), "推理失败: 模型不可用"),
        Ok(_) => panic!("ready"),
    }
}

#[test]
fn embedding_errors_have_texts() {
    assert_eq!(EmbedError::Load("x".into()).message(), "模型加载失败: x");
    assert_eq!(
        EmbedError::NonFinite.message(),
        "输出向量包含非有限数值（NaN/Inf）"
    );
    assert_eq!(
        EmbedError::ChannelClosed.message(),
        "请求通道已关闭（嵌入线程已退出）"
    );
}
