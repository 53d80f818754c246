use std::sync::Arc;
use vamana::{
    Alpha, DistanceFamily, IndexOptions, Memmap, Storage, StoragePreallocator, Vamana, VamanaError,
    VamanaOptions, Vectors, L1, L2,
};

fn scattered(count: usize, dims: usize, seed: u64) -> Vec<Vec<i32>> {
    let mut state = seed;
    let mut rows = Vec::new();
    for _ in 0..count {
        let mut row = Vec::new();
        for _ in 0..dims {
            state = state.wrapping_mul(6364136223846793005).wrapping_add(1442695040888963407);
            row.push(((state >> 33) % 20_001) as i32 - 10_000);
        }
        rows.push(row);
    }
    rows
}

fn dataset(rows: &[Vec<i32>], dims: usize) -> Arc<Vectors> {
    let mut vectors = Vectors::new(dims);
    for row in rows {
        vectors.push(row.clone()).unwrap();
    }
    Arc::new(vectors)
}

fn options(capacity: usize, r: usize, l: usize) -> IndexOptions {
    IndexOptions {
        capacity,
        algorithm: VamanaOptions { memmap: Memmap::Ram, r, alpha: Alpha::new(6, 5).unwrap(), l },
    }
}

fn region(options: IndexOptions) -> Storage {
    let mut plan = StoragePreallocator::new(usize::MAX);
    Vamana::<L2>::prebuild(&mut plan, options).unwrap();
    Storage::allocate(&plan, options.algorithm.memmap)
}

fn snapshot<D: DistanceFamily>(index: &Vamana<D>) -> Vec<Vec<usize>> {
    (0..index.len()).map(|p| index.neighbors(p)).collect()
}

fn reachable_count(lists: &[Vec<usize>], entry: usize) -> usize {
    let mut seen = vec![false; lists.len()];
    let mut stack = vec![entry];
    seen[entry] = true;
    let mut count = 0;
    while let Some(p) = stack.pop() {
        count += 1;
        for q in &lists[p] {
            if !seen[*q] {
                seen[*q] = true;
                stack.push(*q);
            }
        }
    }
    count
}

#[test]
fn every_node_of_a_built_graph_keeps_the_degree_bound() {
    let rows = scattered(150, 3, 7);
    for r in [1usize, 2, 5, 8] {
        let opts = options(200, r, 12);
        let mut storage = region(opts);
        let index = Vamana::<L2>::build(&mut storage, opts, dataset(&rows, 3), 150).unwrap();
        assert_eq!(index.len(), 150);
        for (p, list) in snapshot(&index).iter().enumerate() {
            assert!(list.len() <= r);
            for q in list {
                assert!(*q < 150);
                assert_ne!(*q, p);
            }
        }
    }
}

#[test]
fn the_degree_bound_holds_under_manhattan_distance_too() {
    let rows = scattered(80, 2, 99);
    let opts = options(80, 3, 6);
    let mut storage = region(opts);
    let index = Vamana::<L1>::build(&mut storage, opts, dataset(&rows, 2), 80).unwrap();
    for list in snapshot(&index) {
        assert!(list.len() <= 3);
    }
}

#[test]
fn accept_all_results_are_ascending_distinct_and_true_distances() {
    let rows = scattered(120, 4, 3);
    let opts = options(120, 6, 15);
    let mut storage = region(opts);
    let index = Vamana::<L2>::build(&mut storage, opts, dataset(&rows, 4), 120).unwrap();
    for query in scattered(10, 4, 1234) {
        let found = index.search(query.clone().into(), 10, |_| true).unwrap();
        assert!(found.len() <= 10);
        assert!(!found.is_empty());
        for pair in found.windows(2) {
            assert!(pair[0].0 < pair[1].0 || (pair[0].0 == pair[1].0 && pair[0].1 < pair[1].1));
            assert_ne!(pair[0].1, pair[1].1);
        }
        for (dist, id) in &found {
            assert_eq!(*dist, L2::distance(&query, &rows[*id as usize]));
        }
        let mut ids: Vec<u64> = found.iter().map(|pair| pair.1).collect();
        ids.sort();
        ids.dedup();
        assert_eq!(ids.len(), found.len());
    }
}

#[test]
fn a_wide_search_list_finds_as_many_as_are_reachable() {
    let rows = scattered(60, 2, 17);
    let opts = options(60, 3, 60);
    let mut storage = region(opts);
    let index = Vamana::<L2>::build(&mut storage, opts, dataset(&rows, 2), 60).unwrap();
    let reachable = reachable_count(&snapshot(&index), index.entry());
    assert!(reachable >= 1);
    for k in [0usize, 1, 5, 59, 60, 61, 1000] {
        let found = index.search(vec![0, 0].into(), k, |_| true).unwrap();
        assert_eq!(found.len(), k.min(reachable));
    }
}

#[test]
fn the_predicate_filters_results_only() {
    let rows = scattered(100, 3, 5);
    let opts = options(100, 5, 100);
    let mut storage = region(opts);
    let index = Vamana::<L2>::build(&mut storage, opts, dataset(&rows, 3), 100).unwrap();
    let query = vec![10, -20, 30];
    let all = index.search(query.clone().into(), 1000, |_| true).unwrap();
    let even = index.search(query.clone().into(), 1000, |id| id % 2 == 0).unwrap();
    for (_, id) in &even {
        assert_eq!(id % 2, 0);
    }
    // the same candidates are visited: the filtered answer is the accept-all answer, filtered
    let expected: Vec<(u64, u64)> = all.iter().copied().filter(|pair| pair.1 % 2 == 0).collect();
    assert_eq!(even, expected);
    assert!(even.len() <= all.len());
    let top = index.search(query.clone().into(), 3, |id| id % 2 == 0).unwrap();
    assert_eq!(top, expected[..3].to_vec());
    let nothing = index.search(query.into(), 5, |_| false).unwrap();
    assert!(nothing.is_empty());
}

#[test]
fn rejected_nodes_are_still_traversed() {
    // 0 -> 1 -> 2: node 2 is found although the only way to it leads through the rejected node 1
    let mut vectors = Vectors::new(1);
    for p in [0, 10, 20] {
        vectors.push(vec![p]).unwrap();
    }
    let opts = options(3, 2, 3);
    let mut storage = region(opts);
    let index = Vamana::<L1>::build(&mut storage, opts, Arc::new(vectors), 3).unwrap();
    assert_eq!(index.neighbors(0), vec![1]);
    let found = index.search(vec![0].into(), 3, |id| id != 1).unwrap();
    let ids: Vec<u64> = found.iter().map(|pair| pair.1).collect();
    assert_eq!(ids, vec![0, 2]);
}

#[test]
fn a_reloaded_index_answers_as_the_built_one() {
    let rows = scattered(90, 3, 21);
    let opts = options(128, 4, 10);
    let vectors = dataset(&rows, 3);
    let mut storage = region(opts);
    let built = Vamana::<L2>::build(&mut storage, opts, vectors.clone(), 90).unwrap();
    let persisted = storage.as_bytes().to_vec();
    let mut reopened = Storage::from_bytes(Memmap::Ram, persisted.clone());
    let loaded = Vamana::<L2>::load(&mut reopened, opts, vectors, ()).unwrap();
    assert_eq!(reopened.as_bytes(), &persisted[..]);
    assert_eq!(loaded.len(), built.len());
    assert_eq!(loaded.entry(), built.entry());
    assert_eq!(snapshot(&loaded), snapshot(&built));
    for query in scattered(8, 3, 77) {
        let before = built.search(query.clone().into(), 7, |id| id % 3 != 0).unwrap();
        let after = loaded.search(query.into(), 7, |id| id % 3 != 0).unwrap();
        assert_eq!(before, after);
    }
}

#[test]
fn build_stays_within_the_reserved_layout() {
    let opts = options(1000, 50, 70);
    let mut plan = StoragePreallocator::new(1 << 30);
    Vamana::<L2>::prebuild(&mut plan, opts).unwrap();
    assert_eq!(plan.reserved(Memmap::Ram), 8 * (4 + 1000 + 1000 * 50));
    assert_eq!(plan.reserved(Memmap::Disk), 0);
    let mut storage = Storage::allocate(&plan, Memmap::Ram);
    assert_eq!(storage.len(), 408_032);
    let rows = scattered(40, 2, 11);
    Vamana::<L2>::build(&mut storage, opts, dataset(&rows, 2), 40).unwrap();
    assert_eq!(storage.len(), 408_032);
}

#[test]
fn build_leaves_the_bytes_behind_the_layout_alone() {
    let opts = options(8, 2, 4);
    let layout = 8 * (4 + 8 + 16);
    let mut bytes = vec![0u8; layout];
    bytes.extend_from_slice(&[0xAB; 24]);
    let mut storage = Storage::from_bytes(Memmap::Ram, bytes);
    let rows = scattered(8, 2, 4);
    Vamana::<L1>::build(&mut storage, opts, dataset(&rows, 2), 8).unwrap();
    assert_eq!(storage.len(), layout + 24);
    assert_eq!(&storage.as_bytes()[layout..], &[0xAB; 24][..]);
}

#[test]
fn insert_succeeds_and_changes_nothing() {
    let rows = scattered(30, 2, 8);
    let opts = options(30, 3, 5);
    let mut storage = region(opts);
    let index = Vamana::<L2>::build(&mut storage, opts, dataset(&rows, 2), 30).unwrap();
    let before = snapshot(&index);
    let bytes_before = storage.as_bytes().to_vec();
    for id in [0usize, 1, 29, 30, 31, 1_000_000, usize::MAX] {
        assert_eq!(index.insert(id), Ok::<(), VamanaError>(()));
    }
    assert_eq!(snapshot(&index), before);
    assert_eq!(index.len(), 30);
    assert_eq!(storage.as_bytes(), &bytes_before[..]);
}

#[test]
fn building_twice_gives_the_same_graph() {
    let rows = scattered(70, 3, 2);
    let opts = options(70, 4, 9);
    let mut first_region = region(opts);
    let mut second_region = region(opts);
    let first = Vamana::<L2>::build(&mut first_region, opts, dataset(&rows, 3), 70).unwrap();
    let second = Vamana::<L2>::build(&mut second_region, opts, dataset(&rows, 3), 70).unwrap();
    assert_eq!(snapshot(&first), snapshot(&second));
    assert_eq!(first_region.as_bytes(), second_region.as_bytes());
}

#[test]
fn an_index_over_a_prefix_of_the_dataset_knows_only_the_prefix() {
    let rows = scattered(50, 2, 6);
    let opts = options(64, 4, 64);
    let mut storage = region(opts);
    let index = Vamana::<L2>::build(&mut storage, opts, dataset(&rows, 2), 20).unwrap();
    assert_eq!(index.len(), 20);
    let found = index.search(rows[40].clone().into(), 64, |_| true).unwrap();
    for (_, id) in found {
        assert!(id < 20);
    }
}

#[test]
fn an_empty_index_finds_nothing() {
    let opts = options(4, 2, 3);
    let mut storage = region(opts);
    let index = Vamana::<L2>::build(&mut storage, opts, Arc::new(Vectors::new(2)), 0).unwrap();
    assert_eq!(index.len(), 0);
    assert_eq!(index.entry(), 0);
    assert!(index.search(vec![1, 2].into(), 5, |_| true).unwrap().is_empty());
    let mut reopened = Storage::from_bytes(Memmap::Ram, storage.as_bytes().to_vec());
    let loaded = Vamana::<L2>::load(&mut reopened, opts, Arc::new(Vectors::new(2)), ()).unwrap();
    assert_eq!(loaded.len(), 0);
}

#[test]
fn the_predicate_has_no_part_in_what_is_visited() {
    let rows = scattered(100, 3, 5);
    let opts = options(100, 5, 10);
    let mut storage = region(opts);
    let index = Vamana::<L2>::build(&mut storage, opts, dataset(&rows, 3), 100).unwrap();
    for query in scattered(6, 3, 41) {
        let visited = index.visit(&query).unwrap();
        let all = index.search(query.clone().into(), usize::MAX, |_| true).unwrap();
        let some = index.search(query.clone().into(), usize::MAX, |id| id % 5 == 1).unwrap();
        let none = index.search(query.clone().into(), usize::MAX, |_| false).unwrap();
        assert_eq!(all.len(), visited.len());
        for (pair, c) in all.iter().zip(visited.iter()) {
            assert_eq!(*pair, (c.dist, c.id as u64));
        }
        assert_eq!(some.len(), visited.iter().filter(|c| c.id % 5 == 1).count());
        assert!(none.len() <= some.len() && some.len() <= all.len());
    }
    assert_eq!(index.visit(&[1, 2]), Err(VamanaError::DimensionMismatch));
}

#[test]
fn the_index_reports_what_it_was_built_with() {
    let rows = scattered(10, 2, 1);
    let opts = options(16, 3, 5);
    let mut storage = region(opts);
    let index = Vamana::<L1>::build(&mut storage, opts, dataset(&rows, 2), 10).unwrap();
    assert_eq!(index.capacity(), 16);
    assert_eq!(index.options().r, 3);
    assert_eq!(index.options().l, 5);
    assert_eq!(index.options().memmap, Memmap::Ram);
    assert_eq!(index.options().alpha, Alpha::new(6, 5).unwrap());
    assert!(!index.supports_insert());
}
