use std::sync::Arc;
use vamana::{
    Alpha, IndexOptions, Memmap, Storage, StoragePreallocator, Vamana, VamanaOptions, Vectors, L1, L2,
};

fn fixed(x: f32) -> i32 {
    (x * 1000.0).round() as i32
}

fn line_dataset(positions: &[f32]) -> Arc<Vectors> {
    let mut vectors = Vectors::new(1);
    for p in positions {
        vectors.push(vec![fixed(*p)]).unwrap();
    }
    Arc::new(vectors)
}

fn small_options() -> IndexOptions {
    IndexOptions {
        capacity: 4,
        algorithm: VamanaOptions { memmap: Memmap::Ram, r: 2, alpha: Alpha::new(6, 5).unwrap(), l: 3 },
    }
}

fn region_for(options: IndexOptions) -> Storage {
    let mut plan = StoragePreallocator::new(1 << 20);
    Vamana::<L1>::prebuild(&mut plan, options).unwrap();
    Storage::allocate(&plan, options.algorithm.memmap)
}

#[test]
fn two_clusters_on_a_line_are_bridged() {
    let options = small_options();
    let vectors = line_dataset(&[0.0, 1.0, 5.0, 6.0]);
    let mut storage = region_for(options);
    let index = Vamana::<L1>::build(&mut storage, options, vectors, 4).unwrap();

    assert!(index.neighbors(0).contains(&1));
    assert!(index.neighbors(1).contains(&0));
    assert!(index.neighbors(2).contains(&3));
    assert!(index.neighbors(3).contains(&2));
    let mut bridged = false;
    for near in [0usize, 1] {
        for far in [2usize, 3] {
            if index.neighbors(near).contains(&far) || index.neighbors(far).contains(&near) {
                bridged = true;
            }
        }
    }
    assert!(bridged);

    let low = index.search(vec![fixed(0.5)].into(), 1, |_| true).unwrap();
    assert_eq!(low.len(), 1);
    assert!(low[0].1 == 0 || low[0].1 == 1);
    assert_eq!(low[0].0, 500);

    let high = index.search(vec![fixed(5.5)].into(), 1, |_| true).unwrap();
    assert_eq!(high.len(), 1);
    assert!(high[0].1 == 2 || high[0].1 == 3);
    assert_eq!(high[0].0, 500);
}

#[test]
fn two_clusters_on_a_line_give_this_graph() {
    let options = small_options();
    let vectors = line_dataset(&[0.0, 1.0, 5.0, 6.0]);
    let mut storage = region_for(options);
    let index = Vamana::<L1>::build(&mut storage, options, vectors, 4).unwrap();
    assert_eq!(index.len(), 4);
    // the centroid is 3.0; nodes 1 and 2 are both 2.0 away, and the smaller id wins
    assert_eq!(index.entry(), 1);
    assert_eq!(index.neighbors(0), vec![1]);
    assert_eq!(index.neighbors(1), vec![0, 2]);
    assert_eq!(index.neighbors(2), vec![3, 1]);
    assert_eq!(index.neighbors(3), vec![2]);
    assert_eq!(index.neighbors(4), Vec::<usize>::new());
}

#[test]
fn squared_distances_give_the_same_graph_on_the_line() {
    let options = small_options();
    let vectors = line_dataset(&[0.0, 1.0, 5.0, 6.0]);
    let mut storage = region_for(options);
    let index = Vamana::<L2>::build(&mut storage, options, vectors, 4).unwrap();
    assert_eq!(index.entry(), 1);
    assert_eq!(index.neighbors(0), vec![1]);
    assert_eq!(index.neighbors(1), vec![0, 2]);
    assert_eq!(index.neighbors(2), vec![3, 1]);
    assert_eq!(index.neighbors(3), vec![2]);
    let found = index.search(vec![fixed(0.5)].into(), 4, |_| true).unwrap();
    assert_eq!(found, vec![(250_000, 0), (250_000, 1), (20_250_000, 2), (30_250_000, 3)]);
}

#[test]
fn search_on_the_line_lists_all_nodes_nearest_first() {
    let options = small_options();
    let vectors = line_dataset(&[0.0, 1.0, 5.0, 6.0]);
    let mut storage = region_for(options);
    let index = Vamana::<L1>::build(&mut storage, options, vectors, 4).unwrap();
    let low = index.search(vec![fixed(0.5)].into(), 4, |_| true).unwrap();
    assert_eq!(low, vec![(500, 0), (500, 1), (4500, 2), (5500, 3)]);
    let high = index.search(vec![fixed(5.5)].into(), 4, |_| true).unwrap();
    assert_eq!(high, vec![(500, 2), (500, 3), (4500, 1), (5500, 0)]);
    let none = index.search(vec![fixed(5.5)].into(), 0, |_| true).unwrap();
    assert!(none.is_empty());
}

#[test]
fn the_image_of_the_line_graph_is_laid_out_in_words() {
    let options = small_options();
    let vectors = line_dataset(&[0.0, 1.0, 5.0, 6.0]);
    let mut storage = region_for(options);
    assert_eq!(storage.len(), 128);
    Vamana::<L1>::build(&mut storage, options, vectors, 4).unwrap();
    let expected: [u64; 16] = [4, 2, 4, 1, 1, 2, 2, 1, 1, 0, 0, 2, 3, 1, 2, 0];
    for (k, word) in expected.iter().enumerate() {
        assert_eq!(storage.read_word(k), *word);
    }
    assert_eq!(storage.len(), 128);
}
