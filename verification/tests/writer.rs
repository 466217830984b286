use rag_service::api::{batch_items, batch_response, BatchItem, BatchUpsertRequest};
use rag_service::config::Config;
use rag_service::embedding::EmbedError;
use rag_service::error::ServiceError;
use rag_service::search::aggregate;
use rag_service::store::{IndexSnapshot, StoreError, TagStore};
use rag_service::vector_index::VectorError;
use rag_service::writer::{WriteCmd, WriteReply, WriteStats, WriterAction, WriterError, WriterTask};

fn test_config() -> Config {
    Config {
        model_path: "none".into(),
        data_dir: "none".into(),
        host: "127.0.0.1".into(),
        port: 0,
        n_threads: 4,
        n_ctx: 512,
        dim: 8,
        bit_width: 4,
        max_chunk_chars: 4,
        overlap_chars: 1,
        store_raw_vectors: true,
        lru_capacity: 128,
    }
}

fn writer() -> WriterTask {
    let cfg = test_config();
    WriterTask::new(TagStore::empty(&cfg).unwrap(), &cfg)
}

/// A vector for a text: one of the basis vectors, by the text's first character.
fn vector(text: &str) -> Vec<u32> {
    let first = text.chars().next().unwrap() as usize;
    let mut v = vec![0.0f32; 8];
    v[first % 8] = 1.0;
    v.iter().map(|x| x.to_bits()).collect()
}

fn embed(texts: &[String]) -> (Vec<Vec<u32>>, Vec<bool>) {
    (
        texts.iter().map(|t| vector(t)).collect(),
        texts.iter().map(|t| t.contains('x')).collect(),
    )
}

/// What was done for a request.
struct Trace {
    embedded: Vec<String>,
    saves: usize,
    snapshot: Option<IndexSnapshot>,
    reply: WriteReply,
    after: WriterTask,
}

fn handle(task: WriterTask, cmd: WriteCmd) -> Trace {
    let mut embedded = Vec::new();
    let mut saves = 0;
    let mut snapshot = None;
    let (mut task, mut action) = task.begin(cmd);
    loop {
        (task, action) = match action {
            WriterAction::Embed(texts) => {
                assert!(task.has_room(texts.len()));
                let r = embed(&texts);
                embedded = texts;
                task.embedded(Ok(r))
            }
            WriterAction::Save(_) => {
                assert!(snapshot.is_none());
                saves += 1;
                task.saved(Ok(()))
            }
            WriterAction::Publish(s) => {
                assert_eq!(saves, 1);
                snapshot = Some(s);
                task.published()
            }
            WriterAction::Reply(reply) => {
                return Trace { embedded, saves, snapshot, reply, after: task };
            }
        };
    }
}

fn find(snap: &IndexSnapshot, text: &str) -> Vec<u128> {
    let hits = snap.index.search(&vector(text), 30);
    aggregate(&hits, &snap.chunk_owner, 10, Some(0.9f32.to_bits()))
        .iter()
        .map(|h| h.tag)
        .collect()
}

#[test]
fn a_filed_text_is_found() {
    let t = handle(writer(), WriteCmd::Upsert(7, "abcdefg".into()));
    assert_eq!(t.embedded, vec!["abcd", "defg"]);
    assert_eq!(t.saves, 1);
    match t.reply {
        WriteReply::One(Ok(s)) => assert_eq!(
            s,
            WriteStats { chunk_count: 2, truncated: false }
        ),
        other => panic!("{other:?}"),
    }
    let snap = t.snapshot.unwrap();
    assert_eq!(snap.tag_count(), 1);
    assert_eq!(snap.chunk_count(), 2);
    assert_eq!(find(&snap, "d"), vec![7]);
    assert_eq!(find(&snap, "b"), Vec::<u128>::new());
}

#[test]
fn a_text_replaces_the_one_before() {
    let t = handle(writer(), WriteCmd::Upsert(7, "abcdefg".into()));
    let t = handle(t.after, WriteCmd::Upsert(7, "bx".into()));
    match t.reply {
        WriteReply::One(Ok(s)) => assert_eq!(
            s,
            WriteStats { chunk_count: 1, truncated: true }
        ),
        other => panic!("{other:?}"),
    }
    let snap = t.snapshot.unwrap();
    assert_eq!(snap.chunk_count(), 1);
    assert_eq!(find(&snap, "b"), vec![7]);
    assert_eq!(find(&snap, "d"), Vec::<u128>::new());
}

#[test]
fn a_deleted_tag_is_not_found() {
    let t = handle(writer(), WriteCmd::Upsert(7, "a".into()));
    let t = handle(t.after, WriteCmd::Upsert(8, "b".into()));
    let t = handle(t.after, WriteCmd::Delete(7));
    assert!(matches!(t.reply, WriteReply::Deleted(Ok(()))));
    assert_eq!(t.saves, 1);
    let snap = t.snapshot.unwrap();
    assert_eq!(snap.tag_count(), 1);
    assert_eq!(find(&snap, "a"), Vec::<u128>::new());
    assert_eq!(find(&snap, "b"), vec![8]);

    let t = handle(t.after, WriteCmd::Delete(7));
    assert_eq!(t.saves, 0);
    assert!(t.snapshot.is_none());
    match t.reply {
        WriteReply::Deleted(Err(e)) => {
            assert!(matches!(
                e,
                ServiceError::Store(StoreError::TagNotFound(7))
            ));
            assert_eq!(
                e.message(),
                "存储错误: tag 不存在: 00000000-0000-0000-0000-000000000007"
            );
        }
        other => panic!("{other:?}"),
    }
}

#[test]
fn an_empty_text_is_refused() {
    let t = handle(writer(), WriteCmd::Upsert(7, "".into()));
    assert_eq!(t.saves, 0);
    match t.reply {
        WriteReply::One(Err(e)) => assert_eq!(e.message(), "参数错误: 文本为空"),
        other => panic!("{other:?}"),
    }
    let t = handle(
        t.after,
        WriteCmd::BatchUpsert(vec![(1, "".into()), (2, "".into())]),
    );
    assert_eq!(t.saves, 0);
    match t.reply {
        WriteReply::Batch(r) => {
            assert_eq!(r.len(), 2);
            for x in r {
                assert_eq!(x.unwrap_err().message(), "内部错误: 参数错误: 文本为空");
            }
        }
        other => panic!("{other:?}"),
    }
}

#[test]
fn a_batch_is_embedded_and_saved_once() {
    let items = vec![
        (1u128, "abcdefg".to_string()),
        (2, "".to_string()),
        (3, "cx".to_string()),
        (1, "h".to_string()),
    ];
    let t = handle(writer(), WriteCmd::BatchUpsert(items));
    assert_eq!(t.embedded, vec!["abcd", "defg", "cx", "h"]);
    assert_eq!(t.saves, 1);
    match t.reply {
        WriteReply::Batch(r) => {
            assert_eq!(r.len(), 4);
            assert_eq!(
                r[0].as_ref().unwrap(),
                &WriteStats { chunk_count: 2, truncated: false }
            );
            assert_eq!(
                r[1].as_ref().unwrap_err().message(),
                "参数错误: 文本为空或分块后无内容"
            );
            assert_eq!(
                r[2].as_ref().unwrap(),
                &WriteStats { chunk_count: 1, truncated: true }
            );
            assert_eq!(
                r[3].as_ref().unwrap(),
                &WriteStats { chunk_count: 1, truncated: false }
            );
        }
        other => panic!("{other:?}"),
    }
    let snap = t.snapshot.unwrap();
    assert_eq!(snap.tag_count(), 2);
    assert_eq!(snap.chunk_count(), 2);
    assert_eq!(find(&snap, "h"), vec![1]);
    assert_eq!(find(&snap, "c"), vec![3]);
}

#[test]
fn an_empty_batch_is_answered_at_once() {
    let t = handle(writer(), WriteCmd::BatchUpsert(Vec::new()));
    assert_eq!(t.saves, 0);
    assert!(matches!(t.reply, WriteReply::Batch(r) if r.is_empty()));
}

fn no_model() -> Result<(Vec<Vec<u32>>, Vec<bool>), EmbedError> {
    Err(EmbedError::Inference("down".into()))
}

#[test]
fn what_cannot_be_embedded_is_not_filed() {
    let (task, action) = writer().begin(WriteCmd::Upsert(7, "a".into()));
    assert!(matches!(action, WriterAction::Embed(_)));
    let (task, action) = task.embedded(no_model());
    match action {
        WriterAction::Reply(WriteReply::One(Err(e))) => {
            assert_eq!(e.message(), "嵌入服务错误: 推理失败: down")
        }
        _ => panic!("no answer"),
    }
    let (task, _) = task.begin(WriteCmd::BatchUpsert(vec![(1, "a".into()), (2, "b".into())]));
    let (task, action) = task.embedded(no_model());
    match action {
        WriterAction::Reply(WriteReply::Batch(r)) => {
            assert_eq!(r.len(), 2);
            for x in r {
                assert_eq!(
                    x.unwrap_err().message(),
                    "内部错误: 嵌入服务错误: 推理失败: down"
                );
            }
        }
        _ => panic!("no answer"),
    }
    assert_eq!(task.snapshot().unwrap().tag_count(), 0);
}

fn disk_full() -> Result<(), StoreError> {
    Err(StoreError::Io("disk full".into()))
}

#[test]
fn what_cannot_be_saved_is_not_shown() {
    let (task, _) = writer().begin(WriteCmd::Upsert(7, "a".into()));
    let (task, action) = task.embedded(Ok((vec![vector("a")], vec![false])));
    assert!(matches!(action, WriterAction::Save(_)));
    let (task, action) = task.saved(disk_full());
    match action {
        WriterAction::Reply(WriteReply::One(Err(e))) => {
            assert_eq!(e.message(), "存储错误: IO 错误: disk full")
        }
        _ => panic!("no answer"),
    }
    let (task, action) = task.begin(WriteCmd::Delete(7));
    assert!(matches!(action, WriterAction::Save(_)));
    let (task, action) = task.saved(disk_full());
    assert!(matches!(
        action,
        WriterAction::Reply(WriteReply::Deleted(Err(ServiceError::Store(_))))
    ));
    let (task, _) = task.begin(WriteCmd::BatchUpsert(vec![(1, "a".into()), (2, "".into())]));
    let (task, _) = task.embedded(Ok((vec![vector("a")], vec![false])));
    let (_, action) = task.saved(disk_full());
    match action {
        WriterAction::Reply(WriteReply::Batch(r)) => {
            assert_eq!(
                r[0].as_ref().unwrap_err().message(),
                "内部错误: 存储错误: IO 错误: disk full"
            );
            assert_eq!(
                r[1].as_ref().unwrap_err().message(),
                "参数错误: 文本为空或分块后无内容"
            );
        }
        _ => panic!("no answer"),
    }
}

#[test]
fn what_the_store_refuses_is_not_saved() {
    let (task, _) = writer().begin(WriteCmd::Upsert(7, "a".into()));
    let (_, action) = task.embedded(Ok((vec![vec![0, 0]], vec![false])));
    match action {
        WriterAction::Reply(WriteReply::One(Err(e))) => assert_eq!(
            e.message(),
            "存储错误: IO 错误: 向量维度 2(实际) != 8(期望)"
        ),
        _ => panic!("no answer"),
    }
}

#[test]
fn service_errors_have_texts() {
    assert_eq!(
        ServiceError::Writer(WriterError::Closed).message(),
        "写者线程错误: 写者线程未响应（可能已退出）"
    );
    assert_eq!(
        ServiceError::Vector(VectorError::Empty).message(),
        "向量索引错误: 输入向量为空"
    );
    assert_eq!(ServiceError::Internal("x".into()).message(), "内部错误: x");
    assert_eq!(
        VectorError::DimMismatch { expected: 8, actual: 13 }.message(),
        "向量维度不符: 期望 8, 实际 13"
    );
    assert_eq!(VectorError::Add("x".into()).message(), "添加向量失败: x");
}

#[test]
fn a_blank_text_in_a_batch_is_not_filed() {
    let (t, u) = (21u128, 22u128);
    let body = BatchUpsertRequest {
        items: vec![
            BatchItem { tag: t, text: "  ".into() },
            BatchItem { tag: u, text: "短文本。".into() },
        ],
    };
    let done = handle(writer(), WriteCmd::BatchUpsert(batch_items(&body).unwrap()));
    assert_eq!(done.embedded, vec!["短文本。"]);
    assert_eq!(done.saves, 1);
    let results = match done.reply {
        WriteReply::Batch(results) => results,
        other => panic!("{other:?}"),
    };
    let answer = batch_response(&vec![t, u], &results).results;
    assert_eq!(answer.len(), 2);
    assert_eq!(answer[0].tag, t);
    assert!(answer[0].error.is_some());
    assert_eq!(answer[0].chunk_count, 0);
    assert_eq!(answer[1].tag, u);
    assert_eq!(answer[1].error, None);
    assert_eq!(answer[1].chunk_count, 1);
    let snap = done.snapshot.unwrap();
    assert_eq!(snap.tag_count(), 1);
    assert!(snap.chunk_owner.values().all(|owner| *owner == u));
}

#[test]
fn a_blank_text_leaves_what_its_tag_had() {
    let first = handle(writer(), WriteCmd::Upsert(21, "abc".into()));
    let body = BatchUpsertRequest {
        items: vec![
            BatchItem { tag: 21, text: "\t\n".into() },
            BatchItem { tag: 22, text: "dd".into() },
        ],
    };
    let second = handle(first.after, WriteCmd::BatchUpsert(batch_items(&body).unwrap()));
    let snap = second.snapshot.unwrap();
    assert_eq!(snap.tag_count(), 2);
    assert_eq!(find(&snap, "a"), vec![21]);
    assert_eq!(find(&snap, "d"), vec![22]);
}

#[test]
fn a_batch_of_blank_texts_is_answered_at_once() {
    let body = BatchUpsertRequest {
        items: vec![
            BatchItem { tag: 1, text: " ".into() },
            BatchItem { tag: 2, text: "\u{3000}".into() },
        ],
    };
    let done = handle(writer(), WriteCmd::BatchUpsert(batch_items(&body).unwrap()));
    assert!(done.embedded.is_empty());
    assert_eq!(done.saves, 0);
    match done.reply {
        WriteReply::Batch(results) => {
            assert_eq!(results.len(), 2);
            assert!(results.iter().all(|r| r.is_err()));
        }
        other => panic!("{other:?}"),
    }
}

#[test]
fn what_is_saved_after_a_failure_can_be_recovered() {
    let items = vec![(1u128, "aa".to_string()), (2, "bb".to_string())];
    let (task, _) = writer().begin(WriteCmd::BatchUpsert(items));
    let nan = vec![f32::NAN.to_bits(); 8];
    let (_, action) = task.embedded(Ok((vec![nan, vector("b")], vec![false, false])));
    let files = match action {
        WriterAction::Save(files) => files,
        _ => panic!("nothing to save"),
    };
    let (read, rebuilt) = TagStore::load(&test_config(), &Some(files.tags), &None).unwrap();
    assert!(rebuilt);
    assert_eq!(read.tag_count(), 1);
    assert_eq!(find(&read.snapshot().unwrap(), "b"), vec![2]);
}
