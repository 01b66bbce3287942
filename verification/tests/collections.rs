use elitesql_core::cow::{CowMap, CowSet, CHUNK_ENTRIES};
use std::collections::{BTreeMap, BTreeSet};

fn check(map: &CowMap<Vec<u8>, CowSet<String>>, model: &BTreeMap<Vec<u8>, BTreeSet<String>>) {
    assert_eq!(map.len(), model.len());
    let got: Vec<(Vec<u8>, Vec<String>)> = map
        .iter()
        .into_iter()
        .map(|(key, ids)| (key.clone(), ids.iter().into_iter().cloned().collect()))
        .collect();
    let want: Vec<(Vec<u8>, Vec<String>)> = model
        .iter()
        .map(|(key, ids)| (key.clone(), ids.iter().cloned().collect()))
        .collect();
    assert_eq!(got, want);
    for (key, ids) in model.iter().step_by(3) {
        let set = map.get(key.as_slice()).unwrap();
        assert_eq!(set.len(), ids.len());
        for id in ids.iter().step_by(5) {
            assert!(set.contains(id.as_bytes()));
            let after: Vec<&String> = set.range_after(Some(id.as_bytes())).into_iter().take(3).collect();
            let want: Vec<&String> = ids
                .range::<str, _>((std::ops::Bound::Excluded(id.as_str()), std::ops::Bound::Unbounded))
                .take(3)
                .collect();
            assert_eq!(after, want);
        }
        let from: Vec<&Vec<u8>> = map
            .range_from(key.as_slice(), true)
            .into_iter()
            .map(|(k, _)| k)
            .take(4)
            .collect();
        let want: Vec<&Vec<u8>> = model.range(key.clone()..).map(|(k, _)| k).take(4).collect();
        assert_eq!(from, want);
        let past: Vec<&Vec<u8>> = map
            .range_from(key.as_slice(), false)
            .into_iter()
            .map(|(k, _)| k)
            .take(4)
            .collect();
        let want: Vec<&Vec<u8>> = model
            .range::<Vec<u8>, _>((std::ops::Bound::Excluded(key.clone()), std::ops::Bound::Unbounded))
            .map(|(k, _)| k)
            .take(4)
            .collect();
        assert_eq!(past, want);
    }
    for size in map.chunk_sizes() {
        assert!(size > 0 && size <= 2 * CHUNK_ENTRIES);
    }
}

#[test]
fn cow_map_and_set_match_the_standard_collections_and_clones_are_stable() {
    let mut map: CowMap<Vec<u8>, CowSet<String>> = CowMap::default();
    let mut model: BTreeMap<Vec<u8>, BTreeSet<String>> = BTreeMap::new();
    let mut seed = 0x2545_F491_4F6C_DD1Du64;
    let mut next = || {
        seed ^= seed << 13;
        seed ^= seed >> 7;
        seed ^= seed << 17;
        seed
    };
    let mut frozen = None;
    for step in 0..30_000u64 {
        let key = vec![(next() % 40) as u8, (next() % 7) as u8];
        let id = format!("{:05}", next() % 3_000);
        if next() % 4 == 0 {
            let mut emptied = false;
            if let Some(ids) = map.get_mut(&key) {
                ids.remove(id.as_bytes());
                emptied = ids.is_empty();
            }
            if emptied {
                map.remove(&key);
            }
            if let Some(ids) = model.get_mut(&key) {
                ids.remove(&id);
                if ids.is_empty() {
                    model.remove(&key);
                }
            }
        } else {
            map.get_or_insert_default(key.clone()).insert(id.clone());
            model.entry(key).or_default().insert(id);
        }
        if step == 15_000 {
            frozen = Some((map.clone(), model.clone()));
        }
    }
    check(&map, &model);
    let (frozen_map, frozen_model) = frozen.unwrap();
    check(&frozen_map, &frozen_model);
}

#[test]
fn a_removed_key_comes_back_and_a_copy_keeps_it() {
    let mut map: CowMap<String, String> = CowMap::new();
    assert!(map.insert("b".to_owned(), "1".to_owned()).is_none());
    assert_eq!(map.insert("b".to_owned(), "2".to_owned()), Some("1".to_owned()));
    let copy = map.clone();
    assert_eq!(map.remove(b"b"), Some("2".to_owned()));
    assert!(map.remove(b"b").is_none());
    assert!(map.is_empty());
    assert_eq!(copy.get(b"b"), Some(&"2".to_owned()));
}

#[test]
fn a_changed_value_is_not_seen_by_a_copy() {
    let mut map: CowMap<String, String> = CowMap::new();
    map.insert("k".to_owned(), "old".to_owned());
    let copy = map.clone();
    *map.get_mut(b"k").unwrap() = "new".to_owned();
    assert_eq!(map.get(b"k"), Some(&"new".to_owned()));
    assert_eq!(copy.get(b"k"), Some(&"old".to_owned()));
}
