use dist_sparse::error::SparseError;
use dist_sparse::process_group::ProcessGroup;
use dist_sparse::sparse::index_layout::IndexLayout;

fn layout(n: usize, p: usize, rank: usize) -> IndexLayout {
    IndexLayout::new(n, &ProcessGroup::new(rank, p).unwrap())
}

#[test]
fn process_group_needs_a_member() {
    assert!(ProcessGroup::new(0, 0).is_none());
    assert!(ProcessGroup::new(2, 2).is_none());
    let g = ProcessGroup::new(1, 2).unwrap();
    assert_eq!(g.rank(), 1);
    assert_eq!(g.size(), 2);
    assert_eq!(g.with_rank(0).unwrap().rank(), 0);
    assert!(g.with_rank(2).is_none());
}

#[test]
fn six_indices_over_two_processes() {
    let l = layout(6, 2, 0);
    assert_eq!(l.local_range(0), (0, 3));
    assert_eq!(l.local_range(1), (3, 6));
    assert_eq!(l.own_range(), (0, 3));
    assert_eq!(l.global_size(), 6);
    assert_eq!(l.process_count(), 2);
    assert_eq!(l.index_to_rank(5), Ok(1));
    assert_eq!(l.index_to_rank(2), Ok(0));
    assert_eq!(l.index_to_rank(3), Ok(1));
}

#[test]
fn first_ranks_get_the_extra_elements() {
    // 10 = 3 * 3 + 1: one rank of four, then two of three
    let l = layout(10, 3, 1);
    assert_eq!(l.local_range(0), (0, 4));
    assert_eq!(l.local_range(1), (4, 7));
    assert_eq!(l.local_range(2), (7, 10));
    assert_eq!(l.number_of_local_indices(), 3);
    // 11 = 3 * 3 + 2
    let l = layout(11, 3, 2);
    assert_eq!(l.local_range(0), (0, 4));
    assert_eq!(l.local_range(1), (4, 8));
    assert_eq!(l.local_range(2), (8, 11));
}

#[test]
fn index_to_rank_rejects_indices_at_or_past_the_end() {
    let l = layout(6, 2, 0);
    assert_eq!(l.index_to_rank(6), Err(SparseError::OutOfRange));
    assert_eq!(l.index_to_rank(usize::MAX), Err(SparseError::OutOfRange));
    let empty = layout(0, 3, 0);
    assert_eq!(empty.index_to_rank(0), Err(SparseError::OutOfRange));
}

#[test]
fn ranges_partition_the_index_space() {
    for n in 0..40usize {
        for p in 1..9usize {
            let l = layout(n, p, 0);
            let mut expected_start = 0;
            for r in 0..p {
                let (s, e) = l.local_range(r);
                assert_eq!(s, expected_start);
                assert!(s <= e);
                let len = e - s;
                assert_eq!(len, n / p + if r < n % p { 1 } else { 0 });
                expected_start = e;
            }
            assert_eq!(expected_start, n);
        }
    }
}

#[test]
fn index_to_rank_agrees_with_the_range_table() {
    for n in 0..40usize {
        for p in 1..9usize {
            let l = layout(n, p, p - 1);
            for i in 0..n {
                let r = l.index_to_rank(i).unwrap();
                let (s, e) = l.local_range(r);
                assert!(s <= i && i < e, "n={} p={} i={} r={}", n, p, i, r);
            }
        }
    }
}

#[test]
fn more_processes_than_indices() {
    let l = layout(2, 5, 3);
    assert_eq!(l.local_range(0), (0, 1));
    assert_eq!(l.local_range(1), (1, 2));
    assert_eq!(l.local_range(2), (2, 2));
    assert_eq!(l.local_range(4), (2, 2));
    assert_eq!(l.own_range(), (2, 2));
    assert_eq!(l.number_of_local_indices(), 0);
    assert_eq!(l.index_to_rank(1), Ok(1));
}

#[test]
fn largest_global_size_on_one_process() {
    let l = layout(usize::MAX, 1, 0);
    assert_eq!(l.local_range(0), (0, usize::MAX));
    assert_eq!(l.index_to_rank(usize::MAX - 1), Ok(0));
    let l = layout(usize::MAX, 2, 1);
    let (s, e) = l.local_range(1);
    assert_eq!(e, usize::MAX);
    assert_eq!(s, usize::MAX / 2 + 1);
    assert_eq!(l.index_to_rank(s), Ok(1));
    assert_eq!(l.index_to_rank(s - 1), Ok(0));
}

#[test]
fn local_and_global_offsets_convert() {
    let l = layout(10, 3, 1);
    assert_eq!(l.local_to_global(0), Some(4));
    assert_eq!(l.local_to_global(2), Some(6));
    assert_eq!(l.local_to_global(3), None);
    assert_eq!(l.global_to_local(4), Some(0));
    assert_eq!(l.global_to_local(6), Some(2));
    assert_eq!(l.global_to_local(7), None);
    assert_eq!(l.global_to_local(3), None);
}

#[test]
fn same_partition_ignores_the_rank() {
    let a = layout(10, 3, 0);
    let b = layout(10, 3, 2);
    let c = layout(10, 4, 0);
    assert!(a.is_same_partition(&b));
    assert!(!a.is_same_partition(&c));
    assert!(a != b);
    assert!(a == layout(10, 3, 0));
}
