use rag_service::api::{
    batch_items, batch_response, begin_search, can_search, check_upsert, default_k, health, info,
    query_embedded, search, upsert_response, AppError, BatchItem, BatchUpsertRequest, QueryStep,
    SearchParams, UpsertRequest,
};
use rag_service::config::Config;
use rag_service::embedding::{EmbedError, EmbedderInfo};
use rag_service::error::ServiceError;
use rag_service::memory::{memory_info, parse_kb, MemoryInfo};
use rag_service::query_cache::QueryCache;
use rag_service::store::{IndexSnapshot, StoreError, TagStore};
use rag_service::writer::{WriteStats, WriterError};

fn test_config() -> Config {
    Config {
        model_path: "none".into(),
        data_dir: "none".into(),
        host: "127.0.0.1".into(),
        port: 0,
        n_threads: 4,
        n_ctx: 512,
        dim: 8,
        bit_width: 4,
        max_chunk_chars: 260,
        overlap_chars: 50,
        store_raw_vectors: true,
        lru_capacity: 128,
    }
}

fn basis(i: usize) -> Vec<u32> {
    let mut v = vec![0.0f32; 8];
    v[i] = 1.0;
    v.iter().map(|x| x.to_bits()).collect()
}

fn params(q: &str, k: usize, min_score: Option<f32>) -> SearchParams {
    SearchParams { q: q.into(), k, min_score: min_score.map(|x| x.to_bits()) }
}

/// A store with eight tags of one chunk, and one tag with sixty.
fn snapshot() -> IndexSnapshot {
    let mut store = TagStore::empty(&test_config()).unwrap();
    for i in 0..8 {
        store.upsert(i as u128 + 1, &["a".into()], &[basis(i)]).unwrap();
    }
    let chunks = vec!["c".to_string(); 60];
    let rows = vec![basis(2); 60];
    store.upsert(100, &chunks, &rows).unwrap();
    store.snapshot().unwrap()
}

#[test]
fn blank_texts_are_refused() {
    for text in ["", "  ", "\n\t\u{3000}"] {
        match check_upsert(&UpsertRequest { text: text.into() }) {
            Err(e) => assert_eq!(e.response(), (400, "text 不能为空".to_string())),
            Ok(_) => panic!("{text:?}"),
        }
    }
    assert!(check_upsert(&UpsertRequest { text: " a ".into() }).is_ok());
}

#[test]
fn a_filed_text_is_answered() {
    let r = upsert_response(7, WriteStats { chunk_count: 4, truncated: true });
    assert_eq!((r.tag, r.chunk_count, r.truncated), (7, 4, true));
}

#[test]
fn an_empty_batch_is_refused() {
    match batch_items(&BatchUpsertRequest { items: Vec::new() }) {
        Err(e) => assert_eq!(e.response(), (400, "items 不能为空".to_string())),
        Ok(_) => panic!("taken"),
    }
    let body = BatchUpsertRequest {
        items: vec![
            BatchItem { tag: 5, text: "一".into() },
            BatchItem { tag: 4, text: "".into() },
            BatchItem { tag: 3, text: " \t\u{3000}\n".into() },
            BatchItem { tag: 2, text: " 二 ".into() },
        ],
    };
    assert_eq!(
        batch_items(&body).unwrap(),
        vec![
            (5, "一".to_string()),
            (4, "".to_string()),
            (3, "".to_string()),
            (2, " 二 ".to_string()),
        ]
    );
}

#[test]
fn a_batch_is_answered_item_by_item() {
    let results = vec![
        Ok(WriteStats { chunk_count: 2, truncated: true }),
        Err(ServiceError::BadRequest("文本为空".into())),
    ];
    let r = batch_response(&vec![9, 8, 7], &results);
    assert_eq!(r.results.len(), 2);
    assert_eq!(r.results[0].tag, 9);
    assert_eq!(r.results[0].chunk_count, 2);
    assert!(r.results[0].truncated);
    assert_eq!(r.results[0].error, None);
    assert_eq!(r.results[1].tag, 8);
    assert_eq!(r.results[1].chunk_count, 0);
    assert!(!r.results[1].truncated);
    assert_eq!(r.results[1].error.as_deref(), Some("参数错误: 文本为空"));
}

#[test]
fn errors_have_a_status_and_a_text() {
    let tag = 0x3af2b489_b13a_42e4_af98_fe89d0e6b00e;
    for (e, status, text) in [
        (
            AppError::from(ServiceError::Store(StoreError::TagNotFound(tag))),
            404,
            "tag 不存在: 3af2b489-b13a-42e4-af98-fe89d0e6b00e",
        ),
        (AppError::bad_request("x"), 400, "x"),
        (
            AppError::from(ServiceError::Store(StoreError::Io("x".into()))),
            500,
            "存储错误: IO 错误: x",
        ),
        (
            AppError::from(EmbedError::ChannelClosed),
            500,
            "嵌入服务错误: 请求通道已关闭（嵌入线程已退出）",
        ),
        (
            AppError::from(ServiceError::Writer(WriterError::Closed)),
            500,
            "写者线程错误: 写者线程未响应（可能已退出）",
        ),
    ] {
        assert_eq!(e.response(), (status, text.to_string()));
    }
}

#[test]
fn a_query_is_embedded_once() {
    let mut cache = QueryCache::new(2);
    let p = params("天气", default_k(), None);
    assert!(matches!(begin_search(&p, &mut cache), Ok(QueryStep::Embed)));
    let v = query_embedded(&p, Ok((vec![basis(3)], vec![false])), &mut cache).unwrap();
    assert_eq!(v, basis(3));
    match begin_search(&p, &mut cache) {
        Ok(QueryStep::Ready(w)) => assert_eq!(w, basis(3)),
        _ => panic!("forgotten"),
    }
}

#[test]
fn a_query_without_a_vector_fails() {
    let mut cache = QueryCache::new(2);
    let p = params("天气", 10, None);
    match query_embedded(&p, Ok((Vec::new(), Vec::new())), &mut cache) {
        Err(e) => assert_eq!(e.response(), (500, "内部错误: 嵌入结果为空".to_string())),
        Ok(_) => panic!("found"),
    }
    match query_embedded(&p, Err(EmbedError::NonFinite), &mut cache) {
        Err(e) => assert_eq!(e.response().0, 500),
        Ok(_) => panic!("found"),
    }
    assert!(matches!(begin_search(&p, &mut cache), Ok(QueryStep::Embed)));
}

#[test]
fn blank_queries_are_refused() {
    let mut cache = QueryCache::new(2);
    match begin_search(&params(" \n", 10, None), &mut cache) {
        Err(e) => assert_eq!(e.response(), (400, "q 不能为空".to_string())),
        Ok(_) => panic!("taken"),
    }
}

#[test]
fn the_cache_forgets_what_was_not_used_for_longest() {
    let mut cache = QueryCache::new(2);
    cache.put("a".into(), vec![1]);
    cache.put("b".into(), vec![2]);
    assert_eq!(cache.get(&"a".to_string()), Some(vec![1]));
    cache.put("c".into(), vec![3]);
    assert_eq!(cache.get(&"b".to_string()), None);
    assert_eq!(cache.get(&"a".to_string()), Some(vec![1]));
    assert_eq!(cache.get(&"c".to_string()), Some(vec![3]));
    cache.put("a".into(), vec![4]);
    cache.put("d".into(), vec![5]);
    assert_eq!(cache.get(&"a".to_string()), Some(vec![4]));
    assert_eq!(cache.get(&"c".to_string()), None);
    assert_eq!(cache.get(&"d".to_string()), Some(vec![5]));
}

#[test]
fn a_search_finds_the_nearest_tags() {
    let snap = snapshot();
    let query = basis(4);
    assert!(can_search(&snap, &query));
    let r = search(&params("q", 1, None), &query, &snap);
    assert_eq!(r.results.len(), 1);
    assert_eq!(r.results[0].tag, 5);
    assert!(f32::from_bits(r.results[0].score) > 0.9);

    let r = search(&params("q", 0, None), &query, &snap);
    assert_eq!(r.results.len(), 1, "at least one is wanted");
    let r = search(&params("q", 1000, None), &query, &snap);
    assert_eq!(r.results.len(), 9, "each tag once");
    let r = search(&params("q", 1000, Some(0.9)), &query, &snap);
    assert_eq!(r.results.len(), 1);
}

#[test]
fn one_tag_can_take_all_places_looked_up() {
    let snap = snapshot();
    let r = search(&params("q", 10, None), &basis(2), &snap);
    let tags: Vec<u128> = r.results.iter().map(|h| h.tag).collect();
    assert!(tags.contains(&100));
    assert!(tags.len() <= 2);
}

#[test]
fn what_the_index_cannot_be_asked() {
    let snap = snapshot();
    assert!(!can_search(&snap, &vec![0; 7]));
    assert!(!can_search(&snap, &vec![f32::NAN.to_bits(); 8]));
    assert!(can_search(&snap, &vec![0; 16]));
}

#[test]
fn the_service_describes_itself() {
    let snap = snapshot();
    let h = health(&snap);
    assert_eq!((h.status, h.tags, h.chunks), ("ok", 9, 68));
    let memory = MemoryInfo { rss_kb: 1, vsize_kb: 2 };
    let i = info(EmbedderInfo::unavailable("x".into()), Some(memory), &snap);
    assert_eq!((i.status, i.tags, i.chunks), ("ok", 9, 68));
    assert_eq!(i.memory, Some(memory));
    assert_eq!(i.model.error.as_deref(), Some("x"));
    assert_eq!(default_k(), 10);
}

#[test]
fn kilobytes_are_read() {
    for (text, want) in [
        ("12345 kB", Some(12345)),
        ("\t  81234 kB\r", Some(81234)),
        ("7", Some(7)),
        ("+7 kB", Some(7)),
        ("7 kB kB", Some(7)),
        ("18446744073709551615 kB", Some(u64::MAX)),
        ("18446744073709551616 kB", None),
        ("-7 kB", None),
        ("7  kB", None),
        ("7kB", None),
        ("kB", None),
        ("", None),
    ] {
        assert_eq!(parse_kb(text), want, "{text:?}");
    }
}

#[test]
fn memory_is_read_from_the_status() {
    let status = "Name:\trag\nVmPeak:\t  900 kB\nVmSize:\t  800 kB\nVmRSS:\t  79 kB\nThreads:\t9\n";
    assert_eq!(
        memory_info(status),
        Some(MemoryInfo { rss_kb: 79, vsize_kb: 800 })
    );
    assert_eq!(memory_info("VmRSS: 1 kB\r\nVmSize: 2 kB"), Some(MemoryInfo { rss_kb: 1, vsize_kb: 2 }));
    assert_eq!(memory_info("VmRSS: 1 kB\nVmSize: 2 kB\nVmRSS: x\n"), None);
    assert_eq!(memory_info("VmRSS: 1 kB\n"), None);
    assert_eq!(memory_info(" VmRSS: 1 kB\nVmSize: 2 kB\n"), None);
    assert_eq!(memory_info(""), None);
}

#[test]
fn a_store_with_a_tag_answers_every_query() {
    let mut store = TagStore::empty(&test_config()).unwrap();
    let empty = search(&params("q", 10, None), &basis(0), &store.snapshot().unwrap());
    assert!(empty.results.is_empty());
    store.upsert(3, &["a".into()], &[basis(1)]).unwrap();
    let snap = store.snapshot().unwrap();
    for i in 0..8 {
        let r = search(&params("q", 10, None), &basis(i), &snap);
        assert_eq!(r.results.len(), 1);
        assert_eq!(r.results[0].tag, 3);
    }
}
