use rag_service::config::Config;
use rag_service::store::{StoreError, TagStore};
use rag_service::vector_index::{VectorError, VectorIndex};

fn test_config() -> Config {
    Config {
        model_path: "none".into(),
        data_dir: "none".into(),
        host: "127.0.0.1".into(),
        port: 0,
        n_threads: 4,
        n_ctx: 512,
        dim: 8,
        bit_width: 4,
        max_chunk_chars: 260,
        overlap_chars: 50,
        store_raw_vectors: true,
        lru_capacity: 128,
    }
}

fn bits(v: &[f32]) -> Vec<u32> {
    v.iter().map(|x| x.to_bits()).collect()
}

fn fake_vector(dim: usize, seed: f32) -> Vec<u32> {
    let mut v = vec![seed; dim];
    let norm: f32 = v.iter().map(|x| x * x).sum::<f32>().sqrt();
    v.iter_mut().for_each(|x| *x /= norm);
    bits(&v)
}

fn basis(i: usize) -> Vec<u32> {
    let mut v = vec![0.0f32; 8];
    v[i] = 1.0;
    bits(&v)
}

#[test]
fn upsert_delete_snapshot_cycle() {
    let cfg = test_config();
    let mut store = TagStore::empty(&cfg).unwrap();
    let tag: u128 = 0x0123;

    let n = store
        .upsert(
            tag,
            &["块一".into(), "块二".into()],
            &[fake_vector(8, 0.5), fake_vector(8, 0.7)],
        )
        .unwrap();
    assert_eq!(n, 2);
    assert_eq!(store.tag_count(), 1);
    assert_eq!(store.chunk_count(), 2);

    let n = store
        .upsert(tag, &["新块".into()], &[fake_vector(8, 0.9)])
        .unwrap();
    assert_eq!(n, 1);
    assert_eq!(store.chunk_count(), 1);

    let snap = store.snapshot().unwrap();
    assert_eq!(snap.tag_count(), 1);
    assert_eq!(snap.chunk_count(), 1);
    assert_eq!(snap.chunk_owner.len(), 1);

    let files = store.persist().unwrap();
    drop(store);
    let (mut reloaded, rebuilt) =
        TagStore::load(&cfg, &Some(files.tags), &Some(files.index)).unwrap();
    assert!(!rebuilt);
    assert_eq!(reloaded.tag_count(), 1);
    assert_eq!(reloaded.chunk_count(), 1);
    assert_eq!(reloaded.next_id(), 3, "两次 upsert 共分配了 3 个 id");

    reloaded.delete(tag).unwrap();
    assert_eq!(reloaded.tag_count(), 0);
    assert_eq!(reloaded.chunk_count(), 0);
}

#[test]
fn load_missing_data_returns_empty() {
    let cfg = test_config();
    let (store, rebuilt) = TagStore::load(&cfg, &None, &None).unwrap();
    assert_eq!(store.tag_count(), 0);
    assert!(!rebuilt);
}

#[test]
fn rebuild_when_index_missing() {
    let cfg = test_config();
    let mut store = TagStore::empty(&cfg).unwrap();
    store
        .upsert(0x99, &["内容".into()], &[fake_vector(8, 0.3)])
        .unwrap();
    let files = store.persist().unwrap();

    let (reloaded, rebuilt) = TagStore::load(&cfg, &Some(files.tags), &None).unwrap();
    assert_eq!(reloaded.chunk_count(), 1);
    assert!(rebuilt);
}

fn filled(cfg: &Config) -> TagStore {
    let mut store = TagStore::empty(cfg).unwrap();
    for i in 0..4usize {
        store
            .upsert(i as u128 + 1, &["a".into()], &[basis(i)])
            .unwrap();
    }
    store
}

#[test]
fn a_snapshot_shows_whose_chunk_is_whose() {
    let cfg = test_config();
    let mut store = filled(&cfg);
    store
        .upsert(2, &["b".into(), "c".into()], &[basis(5), basis(6)])
        .unwrap();
    store.delete(1).unwrap();
    let snap = store.snapshot().unwrap();
    assert_eq!(snap.next_id, 6);
    assert_eq!(snap.tag_to_ids[&2], vec![4, 5]);
    let mut owners: Vec<(u64, u128)> = snap.chunk_owner.iter().map(|(a, b)| (*a, *b)).collect();
    owners.sort();
    assert_eq!(owners, vec![(2, 3), (3, 4), (4, 2), (5, 2)]);
    let best = snap.index.search(&basis(6), 1);
    assert_eq!(best[0].0, 5);
    assert!(!snap.index.contains(0));
    assert!(!snap.index.contains(1));
}

#[test]
fn a_snapshot_does_not_change_with_the_store() {
    let cfg = test_config();
    let mut store = filled(&cfg);
    let snap = store.snapshot().unwrap();
    store.delete(1).unwrap();
    assert_eq!(snap.tag_count(), 4);
    assert_eq!(snap.chunk_count(), 4);
    assert!(snap.index.contains(0));
}

#[test]
fn a_reloaded_store_answers_as_before() {
    let cfg = test_config();
    let store = filled(&cfg);
    let files = store.persist().unwrap();
    let (read, rebuilt) = TagStore::load(&cfg, &Some(files.tags), &Some(files.index)).unwrap();
    assert!(!rebuilt);
    let a = store.snapshot().unwrap();
    let b = read.snapshot().unwrap();
    for i in 0..8 {
        assert_eq!(a.index.search(&basis(i), 4), b.index.search(&basis(i), 4));
    }
    assert_eq!(a.chunk_owner, b.chunk_owner);
    assert_eq!(a.tag_to_ids, b.tag_to_ids);
}

#[test]
fn a_damaged_index_is_built_anew() {
    let cfg = test_config();
    let store = filled(&cfg);
    let files = store.persist().unwrap();
    let (read, rebuilt) =
        TagStore::load(&cfg, &Some(files.tags.clone()), &Some(vec![0; 40])).unwrap();
    assert!(rebuilt);
    assert_eq!(read.chunk_count(), 4);
    let snap = read.snapshot().unwrap();
    for i in 0..4 {
        assert_eq!(snap.index.search(&basis(i), 1)[0].0, i as u64);
    }
    let again = read.persist().unwrap();
    let (_, rebuilt) = TagStore::load(&cfg, &Some(again.tags), &Some(again.index)).unwrap();
    assert!(!rebuilt);
}

#[test]
fn a_stale_index_is_replaced() {
    let cfg = test_config();
    let mut store = filled(&cfg);
    let stale = store.persist().unwrap().index;
    store
        .upsert(9, &["b".into()], &[basis(7)])
        .unwrap();
    let tags = store.persist().unwrap().tags;
    let (read, rebuilt) = TagStore::load(&cfg, &Some(tags), &Some(stale.clone())).unwrap();
    assert!(rebuilt);
    assert_eq!(read.chunk_count(), 5);
    assert_eq!(read.snapshot().unwrap().index.search(&basis(7), 1)[0].0, 4);

    for tag in [1u128, 2, 3, 4, 9] {
        store.delete(tag).unwrap();
    }
    let tags = store.persist().unwrap().tags;
    let (read, rebuilt) = TagStore::load(&cfg, &Some(tags), &Some(stale)).unwrap();
    assert!(rebuilt);
    assert_eq!(read.tag_count(), 0);
    assert_eq!(read.chunk_count(), 0);
    assert_eq!(read.next_id(), 5);
}

#[test]
fn without_exact_vectors_a_lost_index_stays_lost() {
    let mut cfg = test_config();
    cfg.store_raw_vectors = false;
    let store = filled(&cfg);
    let files = store.persist().unwrap();
    match TagStore::load(&cfg, &Some(files.tags.clone()), &None) {
        Err(e) => assert_eq!(
            e.message(),
            "IO 错误: 原始向量未持久化，无法重建索引（需 Agent 重推全文）"
        ),
        Ok(_) => panic!("loaded"),
    }
    let (read, rebuilt) = TagStore::load(&cfg, &Some(files.tags), &Some(files.index)).unwrap();
    assert!(!rebuilt);
    assert_eq!(read.chunk_count(), 4);
}

#[test]
fn exact_vectors_make_the_tags_file_longer() {
    let cfg = test_config();
    let mut short = test_config();
    short.store_raw_vectors = false;
    let with = filled(&cfg).persist().unwrap().tags.len();
    let without = filled(&short).persist().unwrap().tags.len();
    assert_eq!(with - without, 4 * (8 + 8 + 8 * 4));
}

#[test]
fn the_tags_file_has_its_layout() {
    let cfg = test_config();
    let mut store = TagStore::empty(&cfg).unwrap();
    let tag: u128 = 0x00112233_44556677_8899aabb_ccddeeff;
    store.upsert(tag, &["a".into()], &[basis(0)]).unwrap();
    let mut want: Vec<u8> = Vec::new();
    want.extend(1u64.to_le_bytes());
    want.extend(16u64.to_le_bytes());
    want.extend(tag.to_be_bytes());
    want.extend(1u64.to_le_bytes());
    want.extend(0u64.to_le_bytes());
    want.extend(1u64.to_le_bytes());
    want.extend(1u64.to_le_bytes());
    want.extend(0u64.to_le_bytes());
    want.extend(8u64.to_le_bytes());
    want.extend(1.0f32.to_le_bytes());
    want.extend([0; 28]);
    assert_eq!(store.persist().unwrap().tags, want);
}

#[test]
fn a_damaged_tags_file_is_refused() {
    let cfg = test_config();
    let mut tags = filled(&cfg).persist().unwrap().tags;
    tags.truncate(30);
    match TagStore::load(&cfg, &Some(tags), &None) {
        Err(e) => {
            assert!(matches!(e, StoreError::Deserialize(_)));
            assert!(e.message().starts_with("反序列化失败: "));
        }
        Ok(_) => panic!("loaded"),
    }
}

#[test]
fn a_store_needs_a_possible_index() {
    let mut cfg = test_config();
    cfg.dim = 10;
    for r in [TagStore::empty(&cfg), TagStore::load(&cfg, &None, &None).map(|p| p.0)] {
        match r {
            Err(e) => assert_eq!(
                e.message(),
                "向量索引错误: 构造索引失败: dim must be a positive multiple of 8, got 10"
            ),
            Ok(_) => panic!("made"),
        }
    }
    let good = test_config();
    let files = filled(&good).persist().unwrap();
    assert!(TagStore::load(&cfg, &Some(files.tags.clone()), &Some(files.index)).is_ok());
    assert!(matches!(
        TagStore::load(&cfg, &Some(files.tags), &None),
        Err(StoreError::Vector(VectorError::Construct(_)))
    ));
}

#[test]
fn a_misfit_vector_is_refused() {
    let cfg = test_config();
    let mut store = filled(&cfg);
    let err = store
        .upsert(
            2,
            &["a".into(), "b".into()],
            &[basis(0), bits(&[1.0, 2.0])],
        )
        .unwrap_err();
    assert_eq!(err.message(), "IO 错误: 向量维度 2(实际) != 8(期望)");
    assert_eq!(store.tag_count(), 3, "the tag is gone");
    assert_eq!(store.chunk_count(), 3);
    assert_eq!(store.next_id(), 5, "one id was handed out");
}

#[test]
fn refused_vectors_leave_the_other_tags() {
    let cfg = test_config();
    let mut store = filled(&cfg);
    let err = store.upsert(2, &[], &[]).unwrap_err();
    assert_eq!(err.message(), "向量索引错误: 输入向量为空");
    let nan = vec![f32::NAN.to_bits(); 8];
    let err = store.upsert(3, &["a".into()], &[nan]).unwrap_err();
    assert!(matches!(err, StoreError::Vector(VectorError::Add(_))));
    assert_eq!(store.tag_count(), 2);
    assert_eq!(store.chunk_count(), 2);
    assert_eq!(store.next_id(), 5);
}

#[test]
fn filing_again_changes_no_answer() {
    let cfg = test_config();
    let mut store = filled(&cfg);
    let before = store.snapshot().unwrap();
    store.upsert(3, &["a".into()], &[basis(2)]).unwrap();
    let after = store.snapshot().unwrap();
    assert_eq!(after.tag_count(), before.tag_count());
    assert_eq!(after.chunk_count(), before.chunk_count());
    let a = before.index.search(&basis(2), 1)[0];
    let b = after.index.search(&basis(2), 1)[0];
    assert_eq!(before.chunk_owner[&a.0], 3);
    assert_eq!(after.chunk_owner[&b.0], 3);
    assert_eq!(a.1, b.1);
}

#[test]
fn deleting_undoes_filing() {
    let cfg = test_config();
    let mut store = filled(&cfg);
    store.upsert(77, &["a".into()], &[basis(7)]).unwrap();
    store.delete(77).unwrap();
    assert_eq!(store.tag_count(), 4);
    assert_eq!(store.chunk_count(), 4);
    let err = store.delete(77).unwrap_err();
    assert_eq!(
        err.message(),
        "tag 不存在: 00000000-0000-0000-0000-00000000004d"
    );
    let err = StoreError::TagNotFound(0x3af2b489_b13a_42e4_af98_fe89d0e6b00e);
    assert_eq!(
        err.message(),
        "tag 不存在: 3af2b489-b13a-42e4-af98-fe89d0e6b00e"
    );
    assert_eq!(StoreError::Serialize("x".into()).message(), "序列化失败: x");
}

#[test]
fn an_index_from_elsewhere_is_replaced() {
    let cfg = test_config();
    let mut index = VectorIndex::new(8, 2).unwrap();
    index.add_with_ids(&[basis(0), basis(1)].concat(), &[40, 41]).unwrap();
    let mut store = TagStore::empty(&cfg).unwrap();
    store
        .upsert(5, &["a".into(), "b".into()], &[basis(2), basis(3)])
        .unwrap();
    let tags = store.persist().unwrap().tags;
    let (read, rebuilt) = TagStore::load(&cfg, &Some(tags), &Some(index.write())).unwrap();
    assert!(rebuilt);
    assert_eq!(read.chunk_count(), 2);
    let snap = read.snapshot().unwrap();
    assert!(snap.index.contains(0) && snap.index.contains(1) && !snap.index.contains(40));
}

#[test]
fn without_exact_vectors_an_index_of_the_right_size_is_taken() {
    let mut cfg = test_config();
    cfg.store_raw_vectors = false;
    let mut index = VectorIndex::new(8, 2).unwrap();
    index.add_with_ids(&basis(0), &[40]).unwrap();
    let mut store = TagStore::empty(&cfg).unwrap();
    store.upsert(5, &["a".into()], &[basis(2)]).unwrap();
    let tags = store.persist().unwrap().tags;
    let (read, rebuilt) = TagStore::load(&cfg, &Some(tags), &Some(index.write())).unwrap();
    assert!(!rebuilt);
    assert!(read.snapshot().unwrap().index.contains(40));
}

#[test]
fn a_crash_loses_the_last_write_at_most() {
    let cfg = test_config();
    let mut store = filled(&cfg);
    let old = store.persist().unwrap();
    // As many chunks as before, so the two images hold equally many vectors.
    store.upsert(2, &["b".into()], &[basis(6)]).unwrap();
    let new = store.persist().unwrap();
    for (tags, index, anew, nearest) in [
        (&old.tags, &old.index, false, 1),
        (&new.tags, &old.index, true, 6),
        (&new.tags, &new.index, false, 6),
    ] {
        let (read, rebuilt) =
            TagStore::load(&cfg, &Some(tags.clone()), &Some(index.clone())).unwrap();
        assert_eq!(rebuilt, anew);
        assert_eq!(read.chunk_count(), 4);
        let snap = read.snapshot().unwrap();
        for (tag, i) in [(1u128, 0usize), (2, nearest), (3, 2), (4, 3)] {
            let best = snap.index.search(&basis(i), 1)[0].0;
            assert_eq!(snap.chunk_owner[&best], tag);
        }
    }
}

#[test]
fn a_refused_write_leaves_no_vectors_behind() {
    let cfg = test_config();
    let mut store = filled(&cfg);
    let nan = vec![f32::NAN.to_bits(); 8];
    store.upsert(9, &["a".into()], &[nan]).unwrap_err();
    store
        .upsert(9, &["a".into(), "b".into()], &[basis(7), bits(&[1.0])])
        .unwrap_err();
    assert_eq!(store.next_id(), 6);
    let files = store.persist().unwrap();
    assert_eq!(files.tags.len(), filled(&cfg).persist().unwrap().tags.len());
    let (read, rebuilt) = TagStore::load(&cfg, &Some(files.tags), &None).unwrap();
    assert!(rebuilt);
    assert_eq!(read.chunk_count(), 4);
    assert_eq!(read.next_id(), 6);
    let snap = read.snapshot().unwrap();
    for i in 0..4 {
        assert_eq!(snap.index.search(&basis(i), 1)[0].0, i as u64);
    }
    let again = read.persist().unwrap();
    let (_, rebuilt) = TagStore::load(&cfg, &Some(again.tags), &Some(again.index)).unwrap();
    assert!(!rebuilt);
}

/// The image of a store's index with one vector under the id 1.
fn image_of_one(width: usize) -> Vec<u8> {
    let mut index = VectorIndex::new(8, width).unwrap();
    index.add_with_ids(&basis(3), &[1]).unwrap();
    index.write()
}

fn one_vector_store(cfg: &Config) -> TagStore {
    let mut store = TagStore::empty(cfg).unwrap();
    // The first id goes to a tag that is deleted again.
    store.upsert(1, &["a".into()], &[basis(0)]).unwrap();
    store.upsert(2, &["b".into()], &[basis(3)]).unwrap();
    store.delete(1).unwrap();
    store
}

#[test]
fn a_store_is_quantised_to_the_configured_width() {
    for width in [2, 3, 4] {
        let cfg = Config { bit_width: width, ..test_config() };
        let files = one_vector_store(&cfg).persist().unwrap();
        assert_eq!(files.index, image_of_one(width));
    }
    assert_ne!(image_of_one(2), image_of_one(4));
}

#[test]
fn an_index_is_built_anew_with_the_configured_width() {
    let files = one_vector_store(&test_config()).persist().unwrap();
    assert_eq!(files.index, image_of_one(4));
    for width in [2, 3, 4] {
        let cfg = Config { bit_width: width, ..test_config() };
        for found in [None, Some(vec![1, 2, 3])] {
            let (read, rebuilt) =
                TagStore::load(&cfg, &Some(files.tags.clone()), &found).unwrap();
            assert!(rebuilt);
            assert_eq!(read.persist().unwrap().index, image_of_one(width));
        }
    }
    // An index that is whole keeps the width that it has.
    let cfg = Config { bit_width: 2, ..test_config() };
    let (read, rebuilt) = TagStore::load(&cfg, &Some(files.tags), &Some(files.index)).unwrap();
    assert!(!rebuilt);
    assert_eq!(read.persist().unwrap().index, image_of_one(4));
}
