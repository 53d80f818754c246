use std::sync::Arc;
use vamana::layout::plan;
use vamana::{
    Alpha, IndexOptions, Memmap, Storage, StoragePreallocator, Vamana, VamanaError, VamanaOptions,
    Vectors, L1,
};

fn options(capacity: usize, r: usize) -> IndexOptions {
    IndexOptions {
        capacity,
        algorithm: VamanaOptions { memmap: Memmap::Ram, r, alpha: Alpha::new(6, 5).unwrap(), l: 3 },
    }
}

fn line() -> Arc<Vectors> {
    let mut vectors = Vectors::new(1);
    for p in [0, 1000, 5000, 6000] {
        vectors.push(vec![p]).unwrap();
    }
    Arc::new(vectors)
}

fn built_region() -> Storage {
    let opts = options(4, 2);
    let mut storage = Storage::from_bytes(Memmap::Ram, vec![0u8; 128]);
    Vamana::<L1>::build(&mut storage, opts, line(), 4).unwrap();
    storage
}

fn error_of<T>(res: Result<T, VamanaError>) -> VamanaError {
    match res {
        Ok(_) => panic!("an error was expected"),
        Err(e) => e,
    }
}

#[test]
fn prebuild_rejects_a_graph_without_nodes_or_edges() {
    let mut reservation = StoragePreallocator::new(1 << 20);
    assert_eq!(Vamana::<L1>::prebuild(&mut reservation, options(0, 2)), Err(VamanaError::ZeroCapacity));
    assert_eq!(Vamana::<L1>::prebuild(&mut reservation, options(4, 0)), Err(VamanaError::ZeroDegree));
    assert_eq!(Vamana::<L1>::prebuild(&mut reservation, options(0, 0)), Err(VamanaError::ZeroCapacity));
    assert_eq!(reservation.reserved(Memmap::Ram), 0);
    assert_eq!(reservation.reserved(Memmap::Disk), 0);
}

#[test]
fn prebuild_rejects_a_layout_beyond_the_address_space() {
    let mut reservation = StoragePreallocator::new(usize::MAX);
    assert_eq!(
        Vamana::<L1>::prebuild(&mut reservation, options(usize::MAX, 2)),
        Err(VamanaError::LayoutOverflow)
    );
    assert_eq!(
        Vamana::<L1>::prebuild(&mut reservation, options(usize::MAX / 8, 1)),
        Err(VamanaError::LayoutOverflow)
    );
    assert_eq!(reservation.reserved(Memmap::Ram), 0);
}

#[test]
fn prebuild_fails_when_the_substrate_is_exhausted() {
    let mut reservation = StoragePreallocator::new(200);
    assert_eq!(Vamana::<L1>::prebuild(&mut reservation, options(4, 2)), Ok(()));
    assert_eq!(reservation.reserved(Memmap::Ram), 128);
    assert_eq!(
        Vamana::<L1>::prebuild(&mut reservation, options(4, 2)),
        Err(VamanaError::StorageExhausted)
    );
    assert_eq!(reservation.reserved(Memmap::Ram), 128);
    assert_eq!(reservation.limit(), 200);
}

#[test]
fn prebuild_reserves_in_the_mode_asked_for() {
    let mut reservation = StoragePreallocator::new(1000);
    let mut paged = options(4, 2);
    paged.algorithm.memmap = Memmap::Disk;
    assert_eq!(Vamana::<L1>::prebuild(&mut reservation, paged), Ok(()));
    assert_eq!(reservation.reserved(Memmap::Disk), 128);
    assert_eq!(reservation.reserved(Memmap::Ram), 0);
    assert_eq!(Vamana::<L1>::prebuild(&mut reservation, options(4, 2)), Ok(()));
    assert_eq!(reservation.reserved(Memmap::Ram), 128);
    let region = Storage::allocate(&reservation, Memmap::Disk);
    assert_eq!(region.memmap(), Memmap::Disk);
    assert_eq!(region.len(), 128);
    assert!(region.as_bytes().iter().all(|b| *b == 0));
}

#[test]
fn plan_gives_the_footprint_in_bytes() {
    assert_eq!(plan(4, 2), Ok(128));
    assert_eq!(plan(1, 1), Ok(48));
    assert_eq!(plan(1000, 50), Ok(408_032));
    assert_eq!(plan(0, 50), Err(VamanaError::ZeroCapacity));
    assert_eq!(plan(1000, 0), Err(VamanaError::ZeroDegree));
    assert_eq!(plan(usize::MAX, usize::MAX), Err(VamanaError::LayoutOverflow));
}

#[test]
fn build_rejects_a_region_that_is_too_small_and_leaves_it_alone() {
    let mut storage = Storage::from_bytes(Memmap::Ram, vec![7u8; 127]);
    let res = Vamana::<L1>::build(&mut storage, options(4, 2), line(), 4);
    assert_eq!(error_of(res), VamanaError::StorageTooSmall);
    assert_eq!(storage.as_bytes(), &[7u8; 127][..]);
}

#[test]
fn build_rejects_a_region_of_another_mode() {
    let mut storage = Storage::from_bytes(Memmap::Disk, vec![0u8; 128]);
    let res = Vamana::<L1>::build(&mut storage, options(4, 2), line(), 4);
    assert_eq!(error_of(res), VamanaError::LayoutMismatch);
}

#[test]
fn build_rejects_more_vectors_than_there_are_or_fit() {
    let mut storage = Storage::from_bytes(Memmap::Ram, vec![0u8; 224]);
    let res = Vamana::<L1>::build(&mut storage, options(8, 2), line(), 5);
    assert_eq!(error_of(res), VamanaError::IdOutOfRange);
    assert!(storage.as_bytes().iter().all(|b| *b == 0));
    assert!(Vamana::<L1>::build(&mut storage, options(8, 2), line(), 4).is_ok());
    let mut small = Storage::from_bytes(Memmap::Ram, vec![0u8; 8 * (4 + 3 + 6)]);
    let res = Vamana::<L1>::build(&mut small, options(3, 2), line(), 4);
    assert_eq!(error_of(res), VamanaError::CapacityExceeded);
    let res = Vamana::<L1>::build(&mut small, options(3, 2), line(), 5);
    assert_eq!(error_of(res), VamanaError::CapacityExceeded);
    assert!(small.as_bytes().iter().all(|b| *b == 0));
}

#[test]
fn build_rejects_degenerate_options() {
    let mut storage = Storage::from_bytes(Memmap::Ram, vec![0u8; 128]);
    assert_eq!(
        error_of(Vamana::<L1>::build(&mut storage, options(0, 2), line(), 0)),
        VamanaError::ZeroCapacity
    );
    assert_eq!(
        error_of(Vamana::<L1>::build(&mut storage, options(4, 0), line(), 4)),
        VamanaError::ZeroDegree
    );
    assert_eq!(
        error_of(Vamana::<L1>::build(&mut storage, options(usize::MAX, 3), line(), 4)),
        VamanaError::LayoutOverflow
    );
}

#[test]
fn load_rejects_other_structural_parameters() {
    let mut storage = built_region();
    let narrower = Vamana::<L1>::load(&mut storage, options(4, 1), line(), ());
    assert_eq!(error_of(narrower), VamanaError::LayoutMismatch);
    let smaller = Vamana::<L1>::load(&mut storage, options(3, 2), line(), ());
    assert_eq!(error_of(smaller), VamanaError::LayoutMismatch);
    let larger = Vamana::<L1>::load(&mut storage, options(5, 2), line(), ());
    assert_eq!(error_of(larger), VamanaError::StorageTooSmall);
    let mut paged = options(4, 2);
    paged.algorithm.memmap = Memmap::Disk;
    assert_eq!(error_of(Vamana::<L1>::load(&mut storage, paged, line(), ())), VamanaError::LayoutMismatch);
    assert!(Vamana::<L1>::load(&mut storage, options(4, 2), line(), ()).is_ok());
}

#[test]
fn load_rejects_a_region_that_holds_no_well_formed_graph() {
    let good = built_region();
    // the count of node 0 exceeds the degree bound
    let mut broken = Storage::from_bytes(Memmap::Ram, good.as_bytes().to_vec());
    broken.write_word(4, 3);
    assert_eq!(
        error_of(Vamana::<L1>::load(&mut broken, options(4, 2), line(), ())),
        VamanaError::LayoutMismatch
    );
    // the neighbour of node 0 is no node
    let mut broken = Storage::from_bytes(Memmap::Ram, good.as_bytes().to_vec());
    broken.write_word(8, 4);
    assert_eq!(
        error_of(Vamana::<L1>::load(&mut broken, options(4, 2), line(), ())),
        VamanaError::LayoutMismatch
    );
    // node 0 is its own neighbour
    let mut broken = Storage::from_bytes(Memmap::Ram, good.as_bytes().to_vec());
    broken.write_word(8, 0);
    assert_eq!(
        error_of(Vamana::<L1>::load(&mut broken, options(4, 2), line(), ())),
        VamanaError::LayoutMismatch
    );
    // the entry point is no node
    let mut broken = Storage::from_bytes(Memmap::Ram, good.as_bytes().to_vec());
    broken.write_word(3, 4);
    assert_eq!(
        error_of(Vamana::<L1>::load(&mut broken, options(4, 2), line(), ())),
        VamanaError::LayoutMismatch
    );
    // more nodes than the layout has room for
    let mut broken = Storage::from_bytes(Memmap::Ram, good.as_bytes().to_vec());
    broken.write_word(2, 5);
    assert_eq!(
        error_of(Vamana::<L1>::load(&mut broken, options(4, 2), line(), ())),
        VamanaError::LayoutMismatch
    );
    // an unused slot may hold anything
    let mut fine = Storage::from_bytes(Memmap::Ram, good.as_bytes().to_vec());
    fine.write_word(9, 999);
    let loaded = Vamana::<L1>::load(&mut fine, options(4, 2), line(), ()).unwrap();
    assert_eq!(loaded.neighbors(0), vec![1]);
}

#[test]
fn load_rejects_a_dataset_with_fewer_vectors_than_nodes() {
    let mut storage = built_region();
    let mut short = Vectors::new(1);
    short.push(vec![0]).unwrap();
    let res = Vamana::<L1>::load(&mut storage, options(4, 2), Arc::new(short), ());
    assert_eq!(error_of(res), VamanaError::IdOutOfRange);
}

#[test]
fn load_rejects_a_zeroed_region() {
    let mut storage = Storage::from_bytes(Memmap::Ram, vec![0u8; 128]);
    let res = Vamana::<L1>::load(&mut storage, options(4, 2), line(), ());
    assert_eq!(error_of(res), VamanaError::LayoutMismatch);
}

#[test]
fn search_rejects_a_query_of_another_dimension() {
    let mut storage = Storage::from_bytes(Memmap::Ram, vec![0u8; 128]);
    let index = Vamana::<L1>::build(&mut storage, options(4, 2), line(), 4).unwrap();
    assert_eq!(index.search(vec![1, 2].into(), 1, |_| true), Err(VamanaError::DimensionMismatch));
    assert_eq!(index.search(vec![].into(), 1, |_| true), Err(VamanaError::DimensionMismatch));
    assert!(index.search(vec![1].into(), 1, |_| true).is_ok());
}

#[test]
fn the_dataset_rejects_a_vector_of_another_dimension() {
    let mut vectors = Vectors::new(2);
    assert_eq!(vectors.push(vec![1, 2]), Ok(0));
    assert_eq!(vectors.push(vec![1]), Err(VamanaError::DimensionMismatch));
    assert_eq!(vectors.push(vec![1, 2, 3]), Err(VamanaError::DimensionMismatch));
    assert_eq!(vectors.push(vec![3, 4]), Ok(1));
    assert_eq!(vectors.len(), 2);
    assert_eq!(vectors.dims(), 2);
    assert_eq!(vectors.get(1), Some(&[3, 4][..]));
    assert_eq!(vectors.get(2), None);
    assert_eq!(vectors.row(0), &[1, 2][..]);
}

#[test]
fn reservations_add_up_to_the_limit_and_not_beyond() {
    let mut reservation = StoragePreallocator::new(100);
    assert_eq!(reservation.reserve(Memmap::Ram, 60), Ok(()));
    assert_eq!(reservation.reserve(Memmap::Disk, 41), Err(VamanaError::StorageExhausted));
    assert_eq!(reservation.reserve(Memmap::Disk, 40), Ok(()));
    assert_eq!(reservation.reserve(Memmap::Ram, 1), Err(VamanaError::StorageExhausted));
    assert_eq!(reservation.reserve(Memmap::Ram, 0), Ok(()));
    assert_eq!(reservation.reserved(Memmap::Ram), 60);
    assert_eq!(reservation.reserved(Memmap::Disk), 40);
}
