use flat_index::format::{
    check_header, count_records, decode_next_id, decode_records, encode_header, encode_next_id,
    encode_record,
};
use flat_index::index::rank;
use flat_index::topk::{distance_key, key_distance_bits, select_top_k};
use flat_index::{FlatIndex, IndexError, Record};

/// The two files of a store, kept in memory.
struct Disk {
    index: Option<Vec<u8>>,
    counter: Option<Vec<u8>>,
}

fn open(disk: &mut Disk, dim: usize) -> Result<FlatIndex, IndexError> {
    let opened = FlatIndex::open_or_create(
        "data/reviews.index".to_string(),
        dim,
        disk.index.as_deref(),
        disk.counter.is_some(),
    )?;
    if let Some(h) = opened.header {
        disk.index = Some(h);
    }
    if let Some(c) = opened.counter {
        disk.counter = Some(c);
    }
    Ok(opened.index)
}

fn bits(v: &[f32]) -> Vec<u32> {
    v.iter().map(|x| x.to_bits()).collect()
}

fn append(disk: &mut Disk, idx: &FlatIndex, v: &[f32]) -> Result<u64, IndexError> {
    let a = idx.append(&bits(v), disk.counter.as_deref().unwrap())?;
    disk.index.as_mut().unwrap().extend_from_slice(&a.record);
    disk.counter = Some(a.counter);
    Ok(a.id)
}

fn cosine_distance(a: &[f32], b: &[f32]) -> f32 {
    let dot = |x: &[f32], y: &[f32]| -> f32 { x.iter().zip(y.iter()).map(|(p, q)| p * q).sum() };
    let na = dot(a, a).sqrt();
    let nb = dot(b, b).sqrt();
    if na == 0.0 || nb == 0.0 {
        1.0
    } else {
        1.0 - dot(a, b) / (na * nb)
    }
}

fn search(disk: &Disk, idx: &FlatIndex, q: &[f32], k: usize) -> Result<Vec<(u64, f32)>, IndexError> {
    let recs = idx.search_candidates(&bits(q), k, disk.index.as_deref().unwrap())?;
    let keys: Vec<u32> = recs
        .iter()
        .map(|r| {
            let v: Vec<f32> = r.vector.iter().map(|b| f32::from_bits(*b)).collect();
            distance_key(cosine_distance(q, &v).to_bits())
        })
        .collect();
    Ok(rank(&recs, &keys, k)
        .into_iter()
        .map(|(id, key)| (id, f32::from_bits(key_distance_bits(key))))
        .collect())
}

fn fresh() -> Disk {
    Disk { index: None, counter: None }
}

fn scan(disk: &Disk, dim: usize) -> Vec<Record> {
    decode_records(&disk.index.as_ref().unwrap()[12..], dim).unwrap()
}

#[test]
fn fresh_store_writes_header_and_counter() {
    let mut d = fresh();
    let idx = open(&mut d, 4).unwrap();
    assert_eq!(idx.dim(), 4);
    assert_eq!(idx.meta_path().as_str(), "data/reviews.index.meta");
    assert_eq!(idx.index_path().as_str(), "data/reviews.index");
    assert_eq!(d.index.unwrap(), vec![0x52, 0x56, 0x49, 0x58, 1, 0, 0, 0, 4, 0, 0, 0]);
    assert_eq!(d.counter.unwrap(), vec![1, 0, 0, 0, 0, 0, 0, 0]);
}

#[test]
fn append_then_scan_round_trips() {
    let mut d = fresh();
    let idx = open(&mut d, 3).unwrap();
    let v = [1.5f32, -0.0, f32::MIN_POSITIVE];
    let id = append(&mut d, &idx, &v).unwrap();
    let recs = scan(&d, 3);
    assert_eq!(recs.len(), 1);
    assert_eq!(recs[0].id, id);
    assert_eq!(recs[0].vector, bits(&v));
}

#[test]
fn ids_are_sequential_across_reopen() {
    let mut d = fresh();
    let idx = open(&mut d, 2).unwrap();
    assert_eq!(append(&mut d, &idx, &[1.0, 0.0]).unwrap(), 1);
    assert_eq!(append(&mut d, &idx, &[0.0, 1.0]).unwrap(), 2);
    let idx = open(&mut d, 2).unwrap();
    assert_eq!(append(&mut d, &idx, &[1.0, 1.0]).unwrap(), 3);
    let ids: Vec<u64> = scan(&d, 2).iter().map(|r| r.id).collect();
    assert_eq!(ids, vec![1, 2, 3]);
}

#[test]
fn append_with_wrong_dimension_fails() {
    let mut d = fresh();
    let idx = open(&mut d, 4).unwrap();
    assert_eq!(append(&mut d, &idx, &[1.0, 2.0, 3.0]), Err(IndexError::DimensionMismatch));
}

#[test]
fn search_with_wrong_dimension_fails() {
    let mut d = fresh();
    let idx = open(&mut d, 4).unwrap();
    assert_eq!(
        search(&d, &idx, &[1.0, 2.0, 3.0, 4.0, 5.0], 3),
        Err(IndexError::DimensionMismatch)
    );
}

#[test]
fn top_k_orders_by_distance() {
    let mut d = fresh();
    let idx = open(&mut d, 2).unwrap();
    append(&mut d, &idx, &[1.0, 0.0]).unwrap();
    append(&mut d, &idx, &[0.0, 1.0]).unwrap();
    append(&mut d, &idx, &[1.0, 1.0]).unwrap();
    let hits = search(&d, &idx, &[1.0, 0.0], 2).unwrap();
    assert_eq!(hits.len(), 2);
    assert_eq!(hits[0], (1, 0.0));
    assert_eq!(hits[1].0, 3);
    assert!((hits[1].1 - 0.2929).abs() < 1e-4);
}

#[test]
fn zero_vector_has_distance_one() {
    let mut d = fresh();
    let idx = open(&mut d, 2).unwrap();
    append(&mut d, &idx, &[0.0, 0.0]).unwrap();
    assert_eq!(search(&d, &idx, &[0.0, 0.0], 1).unwrap(), vec![(1, 1.0)]);
    assert_eq!(search(&d, &idx, &[3.0, -2.0], 1).unwrap(), vec![(1, 1.0)]);
}

#[test]
fn empty_store_search_is_empty() {
    let mut d = fresh();
    let idx = open(&mut d, 2).unwrap();
    assert_eq!(search(&d, &idx, &[1.0, 0.0], 5).unwrap(), vec![]);
}

#[test]
fn top_k_zero_is_empty() {
    let mut d = fresh();
    let idx = open(&mut d, 2).unwrap();
    append(&mut d, &idx, &[1.0, 0.0]).unwrap();
    assert_eq!(search(&d, &idx, &[1.0, 0.0], 0).unwrap(), vec![]);
}

#[test]
fn counter_is_rebuilt_from_records() {
    let mut d = fresh();
    let idx = open(&mut d, 2).unwrap();
    for _ in 0..4 {
        append(&mut d, &idx, &[1.0, 2.0]).unwrap();
    }
    d.counter = None;
    let idx = open(&mut d, 2).unwrap();
    assert_eq!(d.counter.clone().unwrap(), encode_next_id(5));
    assert_eq!(append(&mut d, &idx, &[2.0, 1.0]).unwrap(), 5);
}

#[test]
fn rebuild_refuses_a_cut_record() {
    let mut d = fresh();
    let idx = open(&mut d, 2).unwrap();
    append(&mut d, &idx, &[1.0, 2.0]).unwrap();
    d.index.as_mut().unwrap().extend_from_slice(&[9, 9, 9]);
    d.counter = None;
    assert_eq!(open(&mut d, 2).err(), Some(IndexError::Format));
}

#[test]
fn search_refuses_a_cut_record() {
    let mut d = fresh();
    let idx = open(&mut d, 1).unwrap();
    append(&mut d, &idx, &[1.0]).unwrap();
    d.index.as_mut().unwrap().pop();
    assert_eq!(search(&d, &idx, &[1.0], 1), Err(IndexError::Format));
}

#[test]
fn reopen_checks_the_header() {
    let mut d = fresh();
    open(&mut d, 4).unwrap();
    assert_eq!(open(&mut d, 3).err(), Some(IndexError::DimensionMismatch));
    let mut bad_version = d.index.clone().unwrap();
    bad_version[4] = 2;
    assert_eq!(check_header(&bad_version, 4), Err(IndexError::Version));
    let mut bad_magic = d.index.clone().unwrap();
    bad_magic[0] = b'X';
    assert_eq!(check_header(&bad_magic, 4), Err(IndexError::Format));
    assert_eq!(check_header(&[0x52, 0x56, 0x49, 0x58, 1, 0], 4), Err(IndexError::Format));
    assert_eq!(check_header(&d.index.unwrap(), 4), Ok(()));
}

#[test]
fn record_layout_is_little_endian() {
    let r = encode_record(0x0102030405060708, &[0x11223344, 0xAABBCCDD]);
    assert_eq!(
        r,
        vec![8, 7, 6, 5, 4, 3, 2, 1, 0x44, 0x33, 0x22, 0x11, 0xDD, 0xCC, 0xBB, 0xAA]
    );
    let back = decode_records(&r, 2).unwrap();
    assert_eq!(back, vec![Record { id: 0x0102030405060708, vector: vec![0x11223344, 0xAABBCCDD] }]);
    assert_eq!(encode_header(384), vec![0x52, 0x56, 0x49, 0x58, 1, 0, 0, 0, 0x80, 1, 0, 0]);
}

#[test]
fn counter_codec() {
    assert_eq!(encode_next_id(0x0A0B), vec![0x0B, 0x0A, 0, 0, 0, 0, 0, 0]);
    assert_eq!(decode_next_id(&[0x0B, 0x0A, 0, 0, 0, 0, 0, 0]), Ok(0x0A0B));
    assert_eq!(decode_next_id(&[1, 2, 3]), Err(IndexError::Format));
}

#[test]
fn exhausted_counter_is_refused() {
    let mut d = fresh();
    let idx = open(&mut d, 1).unwrap();
    d.counter = Some(encode_next_id(u64::MAX));
    assert_eq!(append(&mut d, &idx, &[1.0]), Err(IndexError::Format));
}

#[test]
fn count_records_counts_whole_records() {
    let mut body = encode_record(1, &[1, 2]);
    body.extend(encode_record(2, &[3, 4]));
    assert_eq!(count_records(&body, 2), Ok(2));
    assert_eq!(count_records(&[], 2), Ok(0));
    assert_eq!(count_records(&body[..20], 2), Err(IndexError::Format));
}

#[test]
fn ranking_is_stable_and_bounded() {
    let scored = [(1, 50), (2, 10), (3, 50), (4, 10), (5, 70)];
    assert_eq!(select_top_k(&scored, 3), vec![(2, 10), (4, 10), (1, 50)]);
    assert_eq!(select_top_k(&scored, 10), vec![(2, 10), (4, 10), (1, 50), (3, 50), (5, 70)]);
    assert_eq!(select_top_k(&scored, 0), vec![]);
    assert_eq!(select_top_k(&[], 4), vec![]);
}

#[test]
fn distance_keys_follow_distance_order() {
    let ds = [0.0f32, 0.25, 1.0, 2.0];
    for w in ds.windows(2) {
        assert!(distance_key(w[0].to_bits()) < distance_key(w[1].to_bits()));
    }
    assert!(distance_key((-1e-7f32).to_bits()) < distance_key(0.0f32.to_bits()));
    for d in [0.0f32, -1e-7, 0.2929, 2.0] {
        assert_eq!(f32::from_bits(key_distance_bits(distance_key(d.to_bits()))), d);
    }
    assert_eq!(distance_key(0), 0x8000_0000);
}
