use std::collections::BTreeMap;

use facet_sort::ascending::AscendingFacetSort;
use facet_sort::descending::DescendingFacetSort;
use facet_sort::group::{FacetGroupValue, Step};
use facet_sort::key::{
    bound_from_first_key, field_prefix, level0_prefix, level_from_last_key, FacetError,
    FacetGroupKey,
};
use roaring::RoaringBitmap;

type Store = BTreeMap<Vec<u8>, (u8, RoaringBitmap)>;

const GROUP_SIZE: usize = 4;
const MIN_LEVEL_SIZE: usize = 5;

fn key(field_id: u16, level: u8, left_bound: Vec<u8>) -> Vec<u8> {
    FacetGroupKey { field_id, level, left_bound }.encode()
}

/// Builds the levels of one field from its level-0 groups, `GROUP_SIZE` keys
/// of a level under each key of the level above, while a level keeps at least
/// `MIN_LEVEL_SIZE` keys.
fn build_field(store: &mut Store, field_id: u16, values: &BTreeMap<u32, RoaringBitmap>) {
    let mut level: Vec<(Vec<u8>, RoaringBitmap)> =
        values.iter().map(|(v, b)| (v.to_be_bytes().to_vec(), b.clone())).collect();
    for (bound, docs) in &level {
        store.insert(key(field_id, 0, bound.clone()), (1, docs.clone()));
    }
    let mut depth: u8 = 0;
    while level.len() >= MIN_LEVEL_SIZE {
        depth += 1;
        let mut next = Vec::new();
        for chunk in level.chunks(GROUP_SIZE) {
            let mut docs = RoaringBitmap::new();
            for (_, d) in chunk {
                docs |= d;
            }
            store.insert(key(field_id, depth, chunk[0].0.clone()), (chunk.len() as u8, docs.clone()));
            next.push((chunk[0].0.clone(), docs));
        }
        level = next;
    }
}

fn first_with_prefix(store: &Store, prefix: &[u8]) -> Option<Vec<u8>> {
    store.range(prefix.to_vec()..).next().map(|(k, _)| k.clone()).filter(|k| k.starts_with(prefix))
}

fn last_with_prefix(store: &Store, prefix: &[u8]) -> Option<Vec<u8>> {
    store.keys().rev().find(|k| k.starts_with(prefix)).cloned()
}

/// Drives the ascending engine over the store, as a reader of the real store
/// does, and counts the entries read. Stops after `limit` groups.
fn sort_ascending(
    store: &Store,
    field_id: u16,
    candidates: RoaringBitmap,
    limit: usize,
    reads: &mut usize,
) -> Vec<RoaringBitmap> {
    let last = last_with_prefix(store, &field_prefix(field_id));
    let highest = level_from_last_key(last.as_deref()).unwrap();
    let first = first_with_prefix(store, &level0_prefix(field_id));
    let first_bound = bound_from_first_key(first.as_deref()).unwrap();
    let (mut engine, mut step) = AscendingFacetSort::new(field_id, highest, first_bound, candidates);
    let mut scans: Vec<(Vec<u8>, usize)> = Vec::new();
    let mut out = Vec::new();
    loop {
        match step {
            Step::Finished => return out,
            Step::Emit(b) => {
                out.push(b);
                if out.len() == limit {
                    return out;
                }
                step = engine.poll();
            }
            Step::Open(k) => {
                scans.push((k.encode(), 0));
                step = engine.poll();
            }
            Step::OpenBackward { .. } => panic!("the ascending engine opens forward scans only"),
            Step::Close => {
                scans.pop();
                step = engine.poll();
            }
            Step::Read => {
                let (start, pos) = scans.last_mut().unwrap();
                match store.range(start.clone()..).nth(*pos) {
                    None => {
                        scans.pop();
                        engine.on_scan_end();
                        step = engine.poll();
                    }
                    Some((k, (size, docs))) => {
                        *pos += 1;
                        *reads += 1;
                        let k = FacetGroupKey::decode(k).unwrap();
                        let v = FacetGroupValue { size: *size, bitmap: docs.clone() };
                        step = match engine.on_entry(k, v) {
                            Step::Read => engine.poll(),
                            other => other,
                        };
                    }
                }
            }
        }
    }
}

/// Drives the descending engine over the store, counting the entries read.
fn sort_descending(
    store: &Store,
    field_id: u16,
    candidates: RoaringBitmap,
    limit: usize,
    reads: &mut usize,
) -> Vec<RoaringBitmap> {
    let last = last_with_prefix(store, &field_prefix(field_id));
    let highest = level_from_last_key(last.as_deref()).unwrap();
    let level0 = level0_prefix(field_id);
    let first_bound = bound_from_first_key(first_with_prefix(store, &level0).as_deref()).unwrap();
    let last_bound = bound_from_first_key(last_with_prefix(store, &level0).as_deref()).unwrap();
    let bounds = first_bound.zip(last_bound);
    let (mut engine, mut step) = DescendingFacetSort::new(field_id, highest, bounds, candidates);
    // Each scan: the keys it covers, highest first, and how many were read.
    let mut scans: Vec<(Vec<Vec<u8>>, usize)> = Vec::new();
    let mut out = Vec::new();
    loop {
        match step {
            Step::Finished => return out,
            Step::Emit(b) => {
                out.push(b);
                if out.len() == limit {
                    return out;
                }
                step = engine.poll();
            }
            Step::OpenBackward { start, end, end_included } => {
                let (lo, hi) = (start.encode(), end.encode());
                let keys: Vec<Vec<u8>> = store
                    .range(lo..)
                    .map(|(k, _)| k.clone())
                    .filter(|k| if end_included { *k <= hi } else { *k < hi })
                    .collect::<Vec<_>>()
                    .into_iter()
                    .rev()
                    .collect();
                scans.push((keys, 0));
                step = engine.poll();
            }
            Step::Open(_) => panic!("the descending engine opens backward scans only"),
            Step::Close => {
                scans.pop();
                step = engine.poll();
            }
            Step::Read => {
                let (keys, pos) = scans.last_mut().unwrap();
                match keys.get(*pos).cloned() {
                    None => {
                        scans.pop();
                        engine.on_scan_end();
                        step = engine.poll();
                    }
                    Some(k) => {
                        *pos += 1;
                        *reads += 1;
                        let (size, docs) = &store[&k];
                        let key = FacetGroupKey::decode(&k).unwrap();
                        let v = FacetGroupValue { size: *size, bitmap: docs.clone() };
                        step = match engine.on_entry(key, v) {
                            Step::Read => engine.poll(),
                            other => other,
                        };
                    }
                }
            }
        }
    }
}

fn sort_all_descending(store: &Store, field_id: u16, candidates: RoaringBitmap) -> Vec<RoaringBitmap> {
    let mut reads = 0;
    sort_descending(store, field_id, candidates, usize::MAX, &mut reads)
}

fn sort_all(store: &Store, field_id: u16, candidates: RoaringBitmap) -> Vec<RoaringBitmap> {
    let mut reads = 0;
    sort_ascending(store, field_id, candidates, usize::MAX, &mut reads)
}

/// Value `v` holds document `v`, for every `v` below 256; a second field
/// follows in the store.
fn simple_store() -> Store {
    let mut store = Store::new();
    let mut values = BTreeMap::new();
    for v in 0..256u32 {
        let mut b = RoaringBitmap::new();
        b.insert(v);
        values.insert(v, b);
    }
    build_field(&mut store, 0, &values);
    let mut other = BTreeMap::new();
    for v in 0..10u32 {
        let mut b = RoaringBitmap::new();
        b.insert(v + 1000);
        other.insert(v, b);
    }
    build_field(&mut store, 1, &other);
    store
}

/// 128 values drawn from 0..256, value `v` holding documents `v` and `v + 100`.
fn random_looking_values() -> BTreeMap<u32, RoaringBitmap> {
    let mut values: BTreeMap<u32, RoaringBitmap> = BTreeMap::new();
    let mut state: u64 = 0x2545_f491_4f6c_dd1d;
    for _ in 0..128 {
        state = state.wrapping_mul(6364136223846793005).wrapping_add(1442695040888963407);
        let v = ((state >> 33) % 256) as u32;
        let b = values.entry(v).or_default();
        b.insert(v);
        b.insert(v + 100);
    }
    values
}

fn random_looking_store() -> (Store, BTreeMap<u32, RoaringBitmap>) {
    let values = random_looking_values();
    let mut store = Store::new();
    build_field(&mut store, 0, &values);
    (store, values)
}

/// The groups in order of value: each value's documents among the candidates
/// that no smaller value has taken.
fn expected_groups(values: &BTreeMap<u32, RoaringBitmap>, candidates: &RoaringBitmap) -> Vec<RoaringBitmap> {
    let mut remaining = candidates.clone();
    let mut out = Vec::new();
    for docs in values.values() {
        let g = docs & &remaining;
        if !g.is_empty() {
            remaining -= &g;
            out.push(g);
        }
    }
    out
}

fn range_bitmap(lo: u32, hi: u32) -> RoaringBitmap {
    (lo..=hi).collect()
}

#[test]
fn filter_sort() {
    let store = simple_store();
    let groups = sort_all(&store, 0, range_bitmap(200, 300));
    let expected: Vec<RoaringBitmap> = (200..256u32).map(|v| std::iter::once(v).collect()).collect();
    assert_eq!(groups, expected);

    let (store, values) = random_looking_store();
    let groups = sort_all(&store, 0, range_bitmap(200, 300));
    assert_eq!(groups, expected_groups(&values, &range_bitmap(200, 300)));
}

#[test]
fn groups_partition_the_candidates_that_have_a_value() {
    let (store, values) = random_looking_store();
    let candidates = range_bitmap(50, 260);
    let groups = sort_all(&store, 0, candidates.clone());
    let mut union = RoaringBitmap::new();
    for g in &groups {
        assert!(!g.is_empty());
        assert!((g & &union).is_empty());
        union |= g;
    }
    let mut all = RoaringBitmap::new();
    for d in values.values() {
        all |= d;
    }
    assert_eq!(union, &all & &candidates);
}

#[test]
fn groups_come_in_increasing_value_order() {
    let (store, values) = random_looking_store();
    let candidates = range_bitmap(0, 400);
    let groups = sort_all(&store, 0, candidates.clone());
    assert_eq!(groups, expected_groups(&values, &candidates));
    let mut last_value: Option<u32> = None;
    for g in &groups {
        let v = *values.iter().find(|(_, d)| g.is_subset(d)).unwrap().0;
        if let Some(l) = last_value {
            assert!(l < v);
        }
        last_value = Some(v);
    }
}

#[test]
fn two_walks_of_one_store_agree() {
    let (store, _) = random_looking_store();
    let a = sort_all(&store, 0, range_bitmap(120, 330));
    let b = sort_all(&store, 0, range_bitmap(120, 330));
    assert_eq!(a, b);
}

#[test]
fn field_without_values_yields_nothing() {
    let store = simple_store();
    assert!(sort_all(&store, 7, range_bitmap(0, 2000)).is_empty());
    let (mut engine, step) = AscendingFacetSort::new(7, 0, None, range_bitmap(0, 10));
    assert!(matches!(step, Step::Finished));
    assert!(matches!(engine.poll(), Step::Finished));
}

#[test]
fn disjoint_candidates_yield_nothing() {
    let store = simple_store();
    assert!(sort_all(&store, 0, range_bitmap(5000, 6000)).is_empty());
}

#[test]
fn superset_of_documents_gives_the_documents_order() {
    let (store, values) = random_looking_store();
    let mut docs = RoaringBitmap::new();
    for d in values.values() {
        docs |= d;
    }
    let exact = sort_all(&store, 0, docs.clone());
    let wider = sort_all(&store, 0, &docs | &range_bitmap(0, 5000));
    assert_eq!(exact, wider);
}

#[test]
fn walk_stops_at_the_next_field() {
    let store = simple_store();
    let groups = sort_all(&store, 0, range_bitmap(250, 1005));
    let expected: Vec<RoaringBitmap> = (250..256u32).map(|v| std::iter::once(v).collect()).collect();
    assert_eq!(groups, expected);
    let groups = sort_all(&store, 1, range_bitmap(0, 1003));
    let expected: Vec<RoaringBitmap> = (1000..1004u32).map(|v| std::iter::once(v).collect()).collect();
    assert_eq!(groups, expected);
}

#[test]
fn first_group_reads_few_entries() {
    let store = simple_store();
    let mut reads_first = 0;
    let first = sort_ascending(&store, 0, range_bitmap(0, 300), 1, &mut reads_first);
    assert_eq!(first, vec![std::iter::once(0u32).collect::<RoaringBitmap>()]);
    let mut reads_all = 0;
    let all = sort_ascending(&store, 0, range_bitmap(0, 300), usize::MAX, &mut reads_all);
    assert_eq!(all.len(), 256);
    assert!(reads_first <= 10);
    assert!(reads_first * 20 < reads_all);
}

#[test]
fn emitted_group_is_the_intersection() {
    let mut store = Store::new();
    let mut values = BTreeMap::new();
    values.insert(3u32, range_bitmap(0, 9));
    values.insert(8u32, range_bitmap(10, 19));
    build_field(&mut store, 2, &values);
    let groups = sort_all(&store, 2, range_bitmap(5, 12));
    assert_eq!(groups, vec![range_bitmap(5, 9), range_bitmap(10, 12)]);
}

#[test]
fn key_round_trip() {
    let k = FacetGroupKey { field_id: 0x0102, level: 3, left_bound: vec![9, 8, 7] };
    let bytes = k.encode();
    assert_eq!(bytes, vec![1, 2, 3, 9, 8, 7]);
    let d = FacetGroupKey::decode(&bytes).unwrap();
    assert_eq!((d.field_id, d.level, d.left_bound), (0x0102, 3, vec![9, 8, 7]));
    assert!(FacetGroupKey::decode(&[1, 2]).is_none());
}

#[test]
fn prefixes_of_a_field() {
    assert_eq!(field_prefix(0xabcd), vec![0xab, 0xcd]);
    assert_eq!(level0_prefix(5), vec![0, 5, 0]);
}

#[test]
fn boundary_lookups() {
    assert_eq!(bound_from_first_key(None), Ok(None));
    assert_eq!(bound_from_first_key(Some(&[0, 1, 0, 42, 43])), Ok(Some(vec![42, 43])));
    assert_eq!(bound_from_first_key(Some(&[0, 1])), Err(FacetError::Decoding));
    assert_eq!(level_from_last_key(None), Ok(0));
    assert_eq!(level_from_last_key(Some(&[0, 1, 4, 7])), Ok(4));
    assert_eq!(level_from_last_key(Some(&[0])), Err(FacetError::Decoding));
}

#[test]
fn value_decoding() {
    let docs: RoaringBitmap = [3u32, 70_000, 9].into_iter().collect();
    let mut bytes = vec![6u8];
    docs.serialize_into(&mut bytes).unwrap();
    let v = FacetGroupValue::decode(&bytes).unwrap();
    assert_eq!(v.size, 6);
    assert_eq!(v.bitmap, docs);
    assert!(matches!(FacetGroupValue::decode(&[]), Err(FacetError::Decoding)));
    assert!(matches!(FacetGroupValue::decode(&[1, 2]), Err(FacetError::Decoding)));
}

#[test]
fn descending_filter_sort() {
    let store = simple_store();
    let groups = sort_all_descending(&store, 0, range_bitmap(200, 300));
    let expected: Vec<RoaringBitmap> = (200..256u32).rev().map(|v| std::iter::once(v).collect()).collect();
    assert_eq!(groups, expected);
    let groups = sort_all_descending(&store, 1, range_bitmap(0, 2000));
    let expected: Vec<RoaringBitmap> = (1000..1010u32).rev().map(|v| std::iter::once(v).collect()).collect();
    assert_eq!(groups, expected);
}

#[test]
fn descending_is_ascending_reversed() {
    let store = simple_store();
    for (lo, hi) in [(0, 300), (17, 93), (250, 1005)] {
        let mut up = sort_all(&store, 0, range_bitmap(lo, hi));
        up.reverse();
        assert_eq!(up, sort_all_descending(&store, 0, range_bitmap(lo, hi)));
    }
}

#[test]
fn descending_groups_come_in_decreasing_value_order() {
    let (store, values) = random_looking_store();
    let candidates = range_bitmap(0, 400);
    let groups = sort_all_descending(&store, 0, candidates.clone());
    let mut reversed = values.clone();
    let mut expected = Vec::new();
    let mut remaining = candidates.clone();
    while let Some((_, docs)) = reversed.pop_last() {
        let g = &docs & &remaining;
        if !g.is_empty() {
            remaining -= &g;
            expected.push(g);
        }
    }
    assert_eq!(groups, expected);
}

#[test]
fn descending_field_without_values_yields_nothing() {
    let store = simple_store();
    assert!(sort_all_descending(&store, 9, range_bitmap(0, 2000)).is_empty());
    assert!(sort_all_descending(&store, 0, range_bitmap(400, 900)).is_empty());
}

#[test]
fn descending_first_group_reads_few_entries() {
    let store = simple_store();
    let mut reads_first = 0;
    let first = sort_descending(&store, 0, range_bitmap(0, 300), 1, &mut reads_first);
    assert_eq!(first, vec![std::iter::once(255u32).collect::<RoaringBitmap>()]);
    let mut reads_all = 0;
    let all = sort_descending(&store, 0, range_bitmap(0, 300), usize::MAX, &mut reads_all);
    assert_eq!(all.len(), 256);
    assert!(reads_first * 20 < reads_all);
}
