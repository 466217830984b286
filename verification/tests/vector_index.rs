use rag_service::vector_index::{coord, coords, VectorError, VectorIndex};
use rand::Rng;

const DIM: usize = 512;
const BIT_WIDTH: usize = 4;

fn bits(v: &[f32]) -> Vec<u32> {
    v.iter().map(|x| x.to_bits()).collect()
}

fn unit_vector(rng: &mut impl Rng) -> Vec<u32> {
    let mut v: Vec<f32> = (0..DIM).map(|_| rng.gen_range(-1.0..1.0)).collect();
    let norm: f32 = v.iter().map(|x| x * x).sum::<f32>().sqrt();
    v.iter_mut().for_each(|x| *x /= norm);
    bits(&v)
}

fn make_index(n: usize) -> VectorIndex {
    let mut idx = VectorIndex::new(DIM, BIT_WIDTH).unwrap();
    let mut rng = rand::thread_rng();
    let mut vectors = Vec::with_capacity(n * DIM);
    let ids: Vec<u64> = (0..n as u64).collect();
    for _ in 0..n {
        vectors.extend(unit_vector(&mut rng));
    }
    idx.add_with_ids(&vectors, &ids).unwrap();
    idx.prepare();
    idx
}

#[test]
fn search_returns_nearest() {
    let mut idx = VectorIndex::new(DIM, BIT_WIDTH).unwrap();
    let mut v0 = vec![0.0f32; DIM];
    v0[0] = 1.0;
    let mut v1 = vec![0.0f32; DIM];
    v1[1] = 1.0;
    let mut all = v0.clone();
    all.extend_from_slice(&v1);
    idx.add_with_ids(&bits(&all), &[0, 1]).unwrap();
    idx.prepare();

    let hits = idx.search(&bits(&v0), 2);
    assert_eq!(hits.len(), 2);
    assert_eq!(hits[0].0, 0, "应该先命中 id 0");
    assert_eq!(hits[1].0, 1);
}

#[test]
fn remove_keeps_other_ids_stable() {
    let mut idx = make_index(10);
    assert!(idx.remove(3));
    assert!(!idx.contains(3));
    for id in [0u64, 1, 2, 4, 9] {
        assert!(idx.contains(id), "id {id} 不应受影响");
    }
}

#[test]
fn copy_roundtrip_equals_original() {
    let idx = make_index(1_000);
    let cloned = idx.copy().unwrap();
    assert_eq!(cloned.len(), idx.len());
    assert_eq!(cloned.dim(), idx.dim());
    let mut rng = rand::thread_rng();
    let q = unit_vector(&mut rng);
    let a = idx.search(&q, 3);
    let b = cloned.search(&q, 3);
    assert_eq!(a[0].0, b[0].0);
    assert_eq!(a, b);
}

#[test]
fn rejects_wrong_dim() {
    let mut idx = VectorIndex::new(DIM, BIT_WIDTH).unwrap();
    let err = idx.add_with_ids(&bits(&[1.0, 2.0]), &[0]);
    assert!(err.is_err());
    match err {
        Err(VectorError::DimMismatch { expected, actual }) => {
            assert_eq!(expected, 512);
            assert_eq!(actual, 2);
        }
        other => panic!("{other:?}"),
    }
}

#[test]
fn hits_come_best_first() {
    let idx = make_index(50);
    let mut rng = rand::thread_rng();
    let q = unit_vector(&mut rng);
    let hits = idx.search(&q, 20);
    assert_eq!(hits.len(), 20);
    for pair in hits.windows(2) {
        assert!(f32::from_bits(pair[0].1) >= f32::from_bits(pair[1].1));
    }
    assert_eq!(idx.search(&q, 80).len(), 50);
}

#[test]
fn parameters_are_checked() {
    for (dim, width, text) in [
        (512, 5, "构造索引失败: bit_width must be 2, 3, or 4, got 5"),
        (512, 1, "构造索引失败: bit_width must be 2, 3, or 4, got 1"),
        (0, 4, "构造索引失败: dim must be a positive multiple of 8, got 0"),
        (12, 4, "构造索引失败: dim must be a positive multiple of 8, got 12"),
        (16392, 4, "构造索引失败: dim 16392 exceeds maximum 16384"),
    ] {
        match VectorIndex::new(dim, width) {
            Err(e) => {
                assert!(matches!(e, VectorError::Construct(_)));
                assert_eq!(e.message(), text);
            }
            Ok(_) => panic!("{dim} {width}"),
        }
    }
    for (dim, width) in [(8, 2), (8, 3), (16384, 4)] {
        assert!(VectorIndex::new(dim, width).is_ok());
    }
}

#[test]
fn refused_vectors_change_nothing() {
    let mut idx = VectorIndex::new(8, 4).unwrap();
    let one = bits(&[0.5; 8]);
    idx.add_with_ids(&one, &[7]).unwrap();

    match idx.add_with_ids(&[], &[]) {
        Err(e) => {
            assert!(matches!(e, VectorError::Empty));
            assert_eq!(e.message(), "输入向量为空");
        }
        Ok(_) => panic!("nothing was added"),
    }
    assert!(matches!(idx.add_with_ids(&one, &[7]), Err(VectorError::Add(_))));
    assert!(matches!(idx.add_with_ids(&one, &[8, 9]), Err(VectorError::Add(_))));
    let two = [one.clone(), one.clone()].concat();
    assert!(matches!(idx.add_with_ids(&two, &[8, 8]), Err(VectorError::Add(_))));
    let nan = bits(&[f32::NAN; 8]);
    assert!(matches!(idx.add_with_ids(&nan, &[8]), Err(VectorError::Add(_))));
    let huge = bits(&[1.0e16; 8]);
    assert!(matches!(idx.add_with_ids(&huge, &[8]), Err(VectorError::Add(_))));
    assert_eq!(idx.len(), 1);
    assert!(idx.contains(7));

    let large = bits(&[9.9e15; 8]);
    idx.add_with_ids(&large, &[8]).unwrap();
    assert_eq!(idx.len(), 2);
}

#[test]
fn coordinates_in_range() {
    assert!(coord(0.0f32.to_bits()));
    assert!(coord((-9.9e15f32).to_bits()));
    assert!(!coord(1.0e16f32.to_bits()));
    assert!(!coord((-1.0e16f32).to_bits()));
    assert!(!coord(f32::INFINITY.to_bits()));
    assert!(!coord(f32::NAN.to_bits()));
    assert!(coords(&bits(&[1.0, -2.0])));
    assert!(!coords(&bits(&[1.0, f32::NAN])));
}

#[test]
fn empty_index_keeps_its_dimension() {
    let idx = VectorIndex::new(16, 3).unwrap();
    assert!(idx.is_empty());
    let read = VectorIndex::load(&idx.write()).unwrap();
    assert_eq!(read.dim(), 16);
    assert_eq!(read.len(), 0);
    assert!(read.search(&bits(&[0.25; 16]), 3).is_empty());
}

#[test]
fn image_of_a_changed_index_is_read_back() {
    let mut idx = make_index(20);
    for id in [0u64, 5, 19] {
        assert!(idx.remove(id));
    }
    assert!(!idx.remove(5));
    let read = VectorIndex::load(&idx.write()).unwrap();
    assert_eq!(read.len(), 17);
    for id in 0u64..20 {
        assert_eq!(read.contains(id), idx.contains(id));
    }
}

#[test]
fn other_bytes_are_no_image() {
    match VectorIndex::load(&[1, 2, 3]) {
        Err(e) => {
            assert!(matches!(e, VectorError::Io(_)));
            assert!(e.message().starts_with("序列化失败: "));
        }
        Ok(_) => panic!("read"),
    }
    let mut image = make_index(3).write();
    let half = image.len() / 2;
    image.truncate(half);
    assert!(VectorIndex::load(&image).is_err());
}

#[test]
fn an_index_is_quantised_to_its_width() {
    let mut v = vec![0.0f32; DIM];
    v[0] = 0.6;
    v[1] = -0.8;
    let mut images = Vec::new();
    for width in [2, 3, 4] {
        let mut idx = VectorIndex::new(DIM, width).unwrap();
        idx.add_with_ids(&bits(&v), &[5]).unwrap();
        let image = idx.write();
        assert_eq!(idx.copy().unwrap().write(), image);
        assert_eq!(VectorIndex::load(&image).unwrap().write(), image);
        images.push(image);
    }
    assert!(images[0].len() < images[1].len());
    assert!(images[1].len() < images[2].len());
}

#[test]
fn a_read_index_takes_more_vectors() {
    let mut idx = VectorIndex::new(DIM, 2).unwrap();
    let mut v = vec![0.0f32; DIM];
    v[0] = 1.0;
    idx.add_with_ids(&bits(&v), &[1]).unwrap();
    let mut read = VectorIndex::load(&idx.write()).unwrap();
    let mut w = vec![0.0f32; DIM];
    w[9] = 1.0;
    idx.add_with_ids(&bits(&w), &[2]).unwrap();
    read.add_with_ids(&bits(&w), &[2]).unwrap();
    assert_eq!(read.write(), idx.write());
    assert_eq!(read.search(&bits(&w), 1)[0].0, 2);
}
