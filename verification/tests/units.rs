use vamana::builder::{add_back_edge, link_node, rank_neighbors, run_pass};
use vamana::candidates::{frontier_without, insert_candidate};
use vamana::entry::{compute_centroid, find_nearest, select_entry};
use vamana::graph::Graph;
use vamana::layout::{decode, encode, fetch_words, store_words, HEADER_WORDS};
use vamana::prune::robust_prune;
use vamana::search::{greedy_search, select_admitted};
use vamana::storage::WORD_BYTES;
use vamana::{
    Alpha, Candidate, DistanceFamily, Memmap, Storage, VamanaOptions, Vectors, L1, L2,
};

fn cand(dist: u64, id: usize) -> Candidate {
    Candidate { dist, id }
}

fn line(positions: &[i32]) -> Vectors {
    let mut vectors = Vectors::new(1);
    for p in positions {
        vectors.push(vec![*p]).unwrap();
    }
    vectors
}

fn lists_of(graph: &Graph) -> Vec<Vec<usize>> {
    (0..graph.len()).map(|p| graph.neighbors(p).clone()).collect()
}

#[test]
fn manhattan_distance_sums_the_gaps() {
    assert_eq!(L1::distance(&[1, -2, 3], &[4, 2, 3]), 7);
    assert_eq!(L1::distance(&[], &[]), 0);
    assert_eq!(L1::distance(&[5], &[5]), 0);
    assert_eq!(L1::distance(&[i32::MIN], &[i32::MAX]), 4_294_967_295);
    assert_eq!(L1::distance(&[i32::MIN, i32::MAX], &[i32::MAX, i32::MIN]), 8_589_934_590);
}

#[test]
fn euclidean_distance_sums_the_squared_gaps_and_saturates() {
    assert_eq!(L2::distance(&[1, -2, 3], &[4, 2, 3]), 25);
    assert_eq!(L2::distance(&[0], &[1000]), 1_000_000);
    assert_eq!(L2::distance(&[i32::MIN], &[i32::MAX]), 18_446_744_065_119_617_025);
    // (2^32 - 1)^2 + 2^32 = 2^64 - 2^32 + 1 still fits
    assert_eq!(L2::distance(&[i32::MIN, 0], &[i32::MAX, 65_536]), 18_446_744_069_414_584_321);
    assert_eq!(L2::distance(&[i32::MIN, 0, 7], &[i32::MAX, 92_681, 7]), 18_446_744_073_709_384_786);
    // (2^32 - 1)^2 + 92682^2 is beyond the largest u64
    assert_eq!(L2::distance(&[i32::MIN, 0, 7], &[i32::MAX, 92_682, 7]), u64::MAX);
    assert_eq!(L2::distance(&[i32::MIN, i32::MIN], &[i32::MAX, i32::MAX]), u64::MAX);
    assert_eq!(L2::distance(&[i32::MIN, i32::MIN, 3], &[i32::MAX, i32::MAX, 4]), u64::MAX);
}

#[test]
fn the_threshold_is_a_ratio_of_at_least_one() {
    assert!(Alpha::new(6, 5).is_some());
    assert!(Alpha::new(1, 1).is_some());
    assert!(Alpha::new(5, 6).is_none());
    assert!(Alpha::new(1, 0).is_none());
    assert!(Alpha::new(0, 0).is_none());
    let a = Alpha::new(12, 10).unwrap();
    assert_eq!((a.num(), a.den()), (12, 10));
    assert_eq!((Alpha::one().num(), Alpha::one().den()), (1, 1));
}

#[test]
fn the_default_options() {
    let o = VamanaOptions::default();
    assert_eq!(o.memmap, Memmap::Ram);
    assert_eq!(o.r, 50);
    assert_eq!(o.l, 70);
    assert_eq!((o.alpha.num(), o.alpha.den()), (6, 5));
    assert_eq!(VamanaOptions::default_memmap(), Memmap::Ram);
    assert_eq!(VamanaOptions::default_r(), 50);
    assert_eq!(VamanaOptions::default_l(), 70);
    assert_eq!(VamanaOptions::default_alpha(), Alpha::new(6, 5).unwrap());
}

#[test]
fn a_candidate_is_placed_behind_the_nearer_and_the_equally_near_smaller_ones() {
    let mut v = vec![cand(1, 0), cand(5, 1), cand(5, 3), cand(9, 4)];
    insert_candidate(&mut v, cand(5, 2));
    assert_eq!(v, vec![cand(1, 0), cand(5, 1), cand(5, 2), cand(5, 3), cand(9, 4)]);
    insert_candidate(&mut v, cand(0, 9));
    assert_eq!(v[0], cand(0, 9));
    insert_candidate(&mut v, cand(10, 7));
    assert_eq!(v[6], cand(10, 7));
    let mut empty = Vec::new();
    insert_candidate(&mut empty, cand(3, 3));
    assert_eq!(empty, vec![cand(3, 3)]);
}

#[test]
fn the_frontier_is_cut_at_the_limit_and_loses_the_pivot() {
    let v = vec![cand(1, 0), cand(2, 1), cand(3, 2), cand(4, 3)];
    assert_eq!(frontier_without(&v, 3, 1), vec![cand(1, 0), cand(3, 2)]);
    assert_eq!(frontier_without(&v, 3, 3), vec![cand(1, 0), cand(2, 1), cand(3, 2)]);
    assert_eq!(frontier_without(&v, 10, 0), vec![cand(2, 1), cand(3, 2), cand(4, 3)]);
    assert_eq!(frontier_without(&v, 0, 0), Vec::<Candidate>::new());
}

#[test]
fn the_entry_point_is_nearest_to_the_rounded_down_centroid() {
    let vectors = line(&[0, 1000, 5000, 6000]);
    assert_eq!(compute_centroid(&vectors, 4), vec![3000]);
    assert_eq!(compute_centroid(&vectors, 3), vec![2000]);
    assert_eq!(find_nearest::<L1>(&vectors, &[3000], 4), 1);
    assert_eq!(find_nearest::<L1>(&vectors, &[3001], 4), 2);
    assert_eq!(find_nearest::<L1>(&vectors, &[6000], 3), 2);
    assert_eq!(select_entry::<L1>(&vectors, 4), 1);
    assert_eq!(select_entry::<L2>(&vectors, 1), 0);
    assert_eq!(select_entry::<L2>(&vectors, 0), 0);

    assert_eq!(compute_centroid(&line(&[-1, -2]), 2), vec![-2]);
    assert_eq!(compute_centroid(&line(&[-3, 2]), 2), vec![-1]);
    assert_eq!(compute_centroid(&line(&[i32::MIN, i32::MIN]), 2), vec![i32::MIN]);
    assert_eq!(compute_centroid(&line(&[i32::MAX, i32::MAX, i32::MAX]), 3), vec![i32::MAX]);
    assert_eq!(compute_centroid(&line(&[i32::MIN, i32::MAX]), 2), vec![-1]);

    let mut plane = Vectors::new(2);
    for row in [[0, 9], [2, 9], [4, -18]] {
        plane.push(row.to_vec()).unwrap();
    }
    assert_eq!(compute_centroid(&plane, 3), vec![2, 0]);
}

#[test]
fn pruning_discards_what_a_selected_neighbour_dominates() {
    let vectors = line(&[0, 10, 11, 30]);
    let cands = vec![cand(10, 1), cand(11, 2), cand(30, 3)];
    // with the threshold one, node 1 dominates both others
    assert_eq!(robust_prune::<L1>(&vectors, Alpha::one(), 3, cands.clone()), vec![1]);
    // with the threshold two, node 3 is 20 from node 1, and 40 > 30 keeps it
    assert_eq!(robust_prune::<L1>(&vectors, Alpha::new(2, 1).unwrap(), 3, cands.clone()), vec![1, 3]);
    // the margin is inclusive: 20 * (3 / 2) = 30 <= 30 discards node 3
    assert_eq!(robust_prune::<L1>(&vectors, Alpha::new(3, 2).unwrap(), 3, cands.clone()), vec![1]);
    assert_eq!(robust_prune::<L1>(&vectors, Alpha::new(31, 20).unwrap(), 3, cands.clone()), vec![1, 3]);
    assert_eq!(robust_prune::<L1>(&vectors, Alpha::new(2, 1).unwrap(), 1, cands.clone()), vec![1]);
    assert_eq!(robust_prune::<L1>(&vectors, Alpha::new(2, 1).unwrap(), 0, cands), Vec::<usize>::new());
    assert_eq!(robust_prune::<L1>(&vectors, Alpha::one(), 3, Vec::new()), Vec::<usize>::new());
}

#[test]
fn pruning_stops_at_the_degree_bound() {
    let mut plane = Vectors::new(2);
    for row in [[0, 0], [10, 0], [-10, 0], [0, 10], [0, -10]] {
        plane.push(row.to_vec()).unwrap();
    }
    let cands = vec![cand(10, 1), cand(10, 2), cand(10, 3), cand(10, 4)];
    // under the Manhattan distance the four neighbours are 20 apart from each other: none dominates
    assert_eq!(robust_prune::<L1>(&plane, Alpha::one(), 4, cands.clone()), vec![1, 2, 3, 4]);
    assert_eq!(robust_prune::<L1>(&plane, Alpha::one(), 2, cands), vec![1, 2]);
}

#[test]
fn greedy_search_visits_along_the_edges() {
    let vectors = line(&[0, 1000, 5000, 6000]);
    let graph = Graph::from_lists(vec![vec![1], vec![0, 2], vec![3, 1], vec![2]]);
    let visited = greedy_search::<L1>(&graph, &vectors, 1, &[5500], 3);
    assert_eq!(visited, vec![cand(500, 2), cand(500, 3), cand(4500, 1), cand(5500, 0)]);
    let visited = greedy_search::<L1>(&graph, &vectors, 1, &[500], 3);
    assert_eq!(visited, vec![cand(500, 0), cand(500, 1), cand(4500, 2), cand(5500, 3)]);
    // with no room in the frontier nothing is expanded
    let visited = greedy_search::<L1>(&graph, &vectors, 1, &[500], 0);
    assert_eq!(visited, vec![cand(500, 1)]);
}

#[test]
fn a_narrow_frontier_evicts_the_way_on() {
    // 0 -> 1 -> 2 -> 3, and node 1 is far from the query
    let vectors = line(&[0, 100, 1, 2]);
    let graph = Graph::from_lists(vec![vec![1], vec![2], vec![3], vec![]]);
    let narrow = greedy_search::<L1>(&graph, &vectors, 0, &[0], 1);
    assert_eq!(narrow, vec![cand(0, 0), cand(100, 1)]);
    let wide = greedy_search::<L1>(&graph, &vectors, 0, &[0], 4);
    assert_eq!(wide, vec![cand(0, 0), cand(1, 2), cand(2, 3), cand(100, 1)]);
}

#[test]
fn the_answer_holds_the_first_admitted_candidates() {
    let visited = vec![cand(1, 0), cand(2, 1), cand(3, 2)];
    assert_eq!(select_admitted(&visited, &vec![true, false, true], 5), vec![(1, 0), (3, 2)]);
    assert_eq!(select_admitted(&visited, &vec![true, false, true], 1), vec![(1, 0)]);
    assert_eq!(select_admitted(&visited, &vec![true, true, true], 2), vec![(1, 0), (2, 1)]);
    assert_eq!(select_admitted(&visited, &vec![false, false, true], 1), vec![(3, 2)]);
    assert_eq!(select_admitted(&visited, &vec![true, true, true], 0), Vec::<(u64, u64)>::new());
    assert_eq!(select_admitted(&visited, &vec![false, false, false], 3), Vec::<(u64, u64)>::new());
}

#[test]
fn neighbours_are_ranked_by_distance_each_once() {
    let vectors = line(&[0, 10, 11, 30]);
    let ranked = rank_neighbors::<L1>(&vectors, 1, &vec![3, 0, 2, 0, 3]);
    assert_eq!(ranked, vec![cand(1, 2), cand(10, 0), cand(20, 3)]);
}

#[test]
fn a_back_edge_is_appended_while_there_is_room() {
    let vectors = line(&[0, 10, 11, 30]);
    let mut graph = Graph::from_lists(vec![vec![1], vec![], vec![], vec![]]);
    add_back_edge::<L1>(&mut graph, &vectors, Alpha::one(), 2, 0, 3);
    assert_eq!(lists_of(&graph), vec![vec![1, 3], vec![], vec![], vec![]]);
    // an edge that is there already is not added again
    add_back_edge::<L1>(&mut graph, &vectors, Alpha::one(), 2, 0, 1);
    assert_eq!(graph.neighbors(0), &vec![1, 3]);
}

#[test]
fn a_back_edge_to_a_full_node_prunes_it_again() {
    let vectors = line(&[0, 10, 11, 30]);
    // node 0 is full with [1, 3]; node 2 arrives. Around node 0 the candidates are
    // 1 (10), 2 (11), 3 (30), and with the threshold one node 1 dominates the others.
    let mut graph = Graph::from_lists(vec![vec![1, 3], vec![], vec![], vec![]]);
    add_back_edge::<L1>(&mut graph, &vectors, Alpha::one(), 2, 0, 2);
    assert_eq!(graph.neighbors(0), &vec![1]);
    // with the threshold two, node 3 survives node 1 (40 > 30) and node 2 does not (2 <= 11)
    let mut graph = Graph::from_lists(vec![vec![1, 3], vec![], vec![], vec![]]);
    add_back_edge::<L1>(&mut graph, &vectors, Alpha::new(2, 1).unwrap(), 2, 0, 2);
    assert_eq!(graph.neighbors(0), &vec![1, 3]);
    assert!(graph.neighbors(0).len() <= 2);
}

#[test]
fn linking_a_node_selects_its_neighbours_and_links_back() {
    let vectors = line(&[0, 1000, 5000, 6000]);
    let mut graph = Graph::from_lists(vec![vec![1], vec![0, 2], vec![1], vec![]]);
    link_node::<L1>(&mut graph, &vectors, 1, Alpha::one(), 2, 3, 3);
    assert_eq!(lists_of(&graph), vec![vec![1], vec![0, 2], vec![1, 3], vec![2]]);
}

#[test]
fn one_pass_over_an_edgeless_graph() {
    let vectors = line(&[0, 1000, 5000, 6000]);
    let mut graph = Graph::new(4);
    assert_eq!(lists_of(&graph), vec![Vec::<usize>::new(); 4]);
    run_pass::<L1>(&mut graph, &vectors, 1, Alpha::one(), 2, 3);
    assert_eq!(lists_of(&graph), vec![vec![1], vec![0, 2], vec![1, 3], vec![2]]);
    run_pass::<L1>(&mut graph, &vectors, 1, Alpha::new(6, 5).unwrap(), 2, 3);
    assert_eq!(lists_of(&graph), vec![vec![1], vec![0, 2], vec![3, 1], vec![2]]);
}

#[test]
fn the_graph_store_keeps_lists_per_node() {
    let mut graph = Graph::new(3);
    assert_eq!(graph.len(), 3);
    graph.set_neighbors(1, vec![2, 0]);
    graph.push_neighbor(1, 1);
    graph.push_neighbor(0, 2);
    assert_eq!(lists_of(&graph), vec![vec![2], vec![2, 0, 1], vec![]]);
}

#[test]
fn words_are_stored_little_endian() {
    assert_eq!(WORD_BYTES, 8);
    let mut storage = Storage::from_bytes(Memmap::Disk, vec![0xFF; 24]);
    storage.write_word(1, 0x0102_0304_0506_0708);
    let mut expected = vec![0xFFu8; 24];
    expected[8..16].copy_from_slice(&[8, 7, 6, 5, 4, 3, 2, 1]);
    assert_eq!(storage.as_bytes(), &expected[..]);
    assert_eq!(storage.read_word(1), 0x0102_0304_0506_0708);
    assert_eq!(storage.read_word(0), u64::MAX);
    assert_eq!(storage.read_word(2), u64::MAX);
    assert_eq!(storage.memmap(), Memmap::Disk);
    assert_eq!(storage.len(), 24);
    assert_eq!(storage.into_bytes(), expected);
}

#[test]
fn an_image_holds_header_counts_and_slots() {
    assert_eq!(HEADER_WORDS, 4);
    let graph = Graph::from_lists(vec![vec![1], vec![0]]);
    let image = encode(&graph, 1, 3, 2);
    assert_eq!(image, vec![3, 2, 2, 1, 1, 1, 0, 1, 0, 0, 0, 0, 0]);
    let (back, entry) = decode(&image, 3, 2).unwrap();
    assert_eq!(entry, 1);
    assert_eq!(lists_of(&back), vec![vec![1], vec![0]]);
    assert!(decode(&image, 3, 2).is_some());
}

#[test]
fn decoding_checks_the_image() {
    let good: Vec<u64> = vec![3, 2, 2, 1, 1, 1, 0, 1, 0, 0, 0, 0, 0];
    let tamper = |k: usize, word: u64| {
        let mut image = good.clone();
        image[k] = word;
        decode(&image, 3, 2).is_some()
    };
    assert!(!tamper(0, 4));
    assert!(!tamper(1, 3));
    assert!(!tamper(2, 4));
    assert!(!tamper(3, 2));
    assert!(!tamper(4, 3));
    assert!(!tamper(7, 0));
    assert!(!tamper(7, 2));
    assert!(!tamper(9, 1));
    assert!(tamper(8, 77));
    assert!(tamper(6, 77));
    assert!(tamper(12, 77));
    assert!(tamper(3, 0));
    // no node, so the entry point must be zero
    let empty: Vec<u64> = vec![3, 2, 0, 0, 0, 0, 0, 0, 0, 0, 0, 0, 0];
    assert!(decode(&empty, 3, 2).is_some());
    let mut odd = empty.clone();
    odd[3] = 1;
    assert!(decode(&odd, 3, 2).is_none());
}

#[test]
fn words_go_to_the_front_of_the_region_and_come_back() {
    let mut storage = Storage::from_bytes(Memmap::Ram, vec![0xEE; 30]);
    store_words(&mut storage, &vec![1, 0x0100, u64::MAX]);
    assert_eq!(fetch_words(&storage, 3), vec![1, 0x0100, u64::MAX]);
    assert_eq!(fetch_words(&storage, 0), Vec::<u64>::new());
    assert_eq!(&storage.as_bytes()[..10], &[1, 0, 0, 0, 0, 0, 0, 0, 0, 1][..]);
    assert_eq!(&storage.as_bytes()[24..], &[0xEE; 6][..]);
}
