use dist_sparse::error::SparseError;
use dist_sparse::process_group::ProcessGroup;
use dist_sparse::sparse::csr_mat::CsrMatrix;
use dist_sparse::sparse::ghost_communicator::{GhostCommunicator, GhostRequests};
use dist_sparse::sparse::in_process::{all_to_all, InProcessMatrix};
use dist_sparse::sparse::index_layout::IndexLayout;
use dist_sparse::sparse::kernel::csr_matvec;
use dist_sparse::sparse::mpi_csr_mat::{row_blocks, MpiCsrMatrix};
use dist_sparse::traits::accessors::{RandomAccessByRef, RandomAccessByValue, RandomAccessMut};
use dist_sparse::sparse::vector::IndexableVector;

fn layout(n: usize, p: usize, rank: usize) -> IndexLayout {
    IndexLayout::new(n, &ProcessGroup::new(rank, p).unwrap())
}

fn example_matrix() -> CsrMatrix<i64> {
    // [[1, 2, 0, 0, 0, 9],
    //  [4, 5, 6, 0, 0, 0]]
    CsrMatrix::new(
        (2, 6),
        vec![0, 3, 6],
        vec![0, 1, 5, 0, 1, 2],
        vec![1, 2, 9, 4, 5, 6],
    )
    .unwrap()
}

#[test]
fn rank_zero_gets_one_ghost_slot_for_index_five() {
    let m = example_matrix();
    let req = GhostRequests::new(&layout(6, 2, 0), m.indices()).unwrap();
    assert_eq!(req.ghost_indices(), &vec![5usize]);
    assert_eq!(req.ghost_count(), 1);
    assert_eq!(req.requests(), vec![vec![], vec![5usize]]);
    assert_eq!(req.slot_of(5), Some(0));
    assert_eq!(req.slot_of(4), None);
    assert_eq!(req.slot_of(0), None);
    assert_eq!(req.receive_list(0), Some(vec![]));
    assert_eq!(req.receive_list(1), Some(vec![0usize]));
    assert_eq!(req.receive_list(2), None);
}

#[test]
fn rank_one_sends_local_offset_two_to_rank_zero() {
    let m = example_matrix();
    let req0 = GhostRequests::new(&layout(6, 2, 0), m.indices()).unwrap();
    let req1 = GhostRequests::new(&layout(6, 2, 1), &vec![]).unwrap();
    let incoming = all_to_all(&vec![req0.requests(), req1.requests()]).unwrap();
    let c0 = GhostCommunicator::new(req0, &incoming[0]).unwrap();
    let c1 = GhostCommunicator::new(req1, &incoming[1]).unwrap();
    assert_eq!(c1.send_list(0), Some(&vec![2usize]));
    assert_eq!(c1.send_list(1), Some(&vec![]));
    assert_eq!(c1.send_list(2), None);
    assert_eq!(c0.send_list(0), Some(&vec![]));
    assert_eq!(c0.send_list(1), Some(&vec![]));
    assert_eq!(c0.ghost_indices(), &vec![5usize]);
    assert_eq!(c0.ghost_count(), 1);
    assert_eq!(c1.ghost_count(), 0);
    assert_eq!(c0.receive_list(1), Some(vec![0usize]));
}

#[test]
fn exchange_delivers_the_ghost_value() {
    let m = example_matrix();
    let x: Vec<i64> = vec![1, 2, 3, 9, 4, 5];
    let domain0 = layout(6, 2, 0);
    let domain1 = layout(6, 2, 1);
    let req0 = GhostRequests::new(&domain0, m.indices()).unwrap();
    let req1 = GhostRequests::new(&domain1, &vec![]).unwrap();
    let incoming = all_to_all(&vec![req0.requests(), req1.requests()]).unwrap();
    let c0 = GhostCommunicator::new(req0, &incoming[0]).unwrap();
    let c1 = GhostCommunicator::new(req1, &incoming[1]).unwrap();

    let x0 = IndexableVector::from_local(&domain0, x[0..3].to_vec()).unwrap();
    let x1 = IndexableVector::from_local(&domain1, x[3..6].to_vec()).unwrap();
    let sent = vec![c0.send_buffers(&x0).unwrap(), c1.send_buffers(&x1).unwrap()];
    assert_eq!(sent[0], vec![Vec::<i64>::new(), vec![]]);
    assert_eq!(sent[1], vec![vec![5i64], vec![]]);
    let arrived = all_to_all(&sent).unwrap();
    assert_eq!(c0.receive(&arrived[0]).unwrap(), vec![5i64]);
    assert_eq!(c1.receive(&arrived[1]).unwrap(), Vec::<i64>::new());
}

#[test]
fn single_process_product_of_the_scenario() {
    let m = example_matrix();
    let mut y = vec![0i64, 0];
    csr_matvec(&m, 1, &vec![1, 2, 3, 9, 4, 5], 0, &mut y).unwrap();
    assert_eq!(y, vec![1 * 1 + 2 * 2 + 9 * 5, 4 * 1 + 5 * 2 + 6 * 3]);
    assert_eq!(y, vec![50, 32]);
}

#[test]
fn distributed_product_of_the_scenario() {
    let m = example_matrix();
    let x: Vec<i64> = vec![1, 2, 3, 9, 4, 5];
    let group = ProcessGroup::new(0, 2).unwrap();
    let dist = InProcessMatrix::from_csr(&m, &group).unwrap();
    assert_eq!(dist.process_count(), 2);
    let mut y = vec![0i64, 0];
    dist.multiply(1, &x, 0, &mut y).unwrap();
    assert_eq!(y, vec![50, 32]);
    // rank 0 holds row 0, which refers to column 5 of rank 1
    let part0 = dist.part(0).unwrap();
    assert_eq!(part0.communicator().ghost_indices(), &vec![5usize]);
    assert_eq!(part0.local().rows(), 1);
    let part1 = dist.part(1).unwrap();
    assert_eq!(part1.communicator().send_list(0), Some(&vec![2usize]));
    // rank 1 holds row 1, which refers to columns 0, 1, 2 of rank 0
    assert_eq!(part1.communicator().ghost_indices(), &vec![0usize, 1, 2]);
    assert_eq!(part0.communicator().send_list(1), Some(&vec![0usize, 1, 2]));
    assert!(dist.part(2).is_none());
}

#[test]
fn one_process_holding_all_rows_with_a_remote_column() {
    // Rank 0 holds rows 0 and 1 and owns columns [0, 3); rank 1 owns columns
    // [3, 6) and holds one row without nonzeros.
    let m = example_matrix();
    let x: Vec<i64> = vec![1, 2, 3, 9, 4, 5];
    let domain0 = layout(6, 2, 0);
    let domain1 = layout(6, 2, 1);
    let range0 = layout(3, 2, 0);
    let range1 = layout(3, 2, 1);
    assert_eq!(range0.own_range(), (0, 2));
    assert_eq!(range1.own_range(), (2, 3));
    let empty_row: CsrMatrix<i64> = CsrMatrix::new((1, 6), vec![0, 0], vec![], vec![]).unwrap();

    let b0 = MpiCsrMatrix::prepare(m, &domain0, &range0).unwrap();
    let b1 = MpiCsrMatrix::prepare(empty_row, &domain1, &range1).unwrap();
    let incoming = all_to_all(&vec![b0.requests(), b1.requests()]).unwrap();
    let a0 = b0.finish(&incoming[0]).unwrap();
    let a1 = b1.finish(&incoming[1]).unwrap();
    assert_eq!(a0.communicator().ghost_indices(), &vec![5usize]);
    assert_eq!(a1.communicator().send_list(0), Some(&vec![2usize]));

    let x0 = IndexableVector::from_local(&domain0, x[0..3].to_vec()).unwrap();
    let x1 = IndexableVector::from_local(&domain1, x[3..6].to_vec()).unwrap();
    let sent = vec![
        a0.communicator().send_buffers(&x0).unwrap(),
        a1.communicator().send_buffers(&x1).unwrap(),
    ];
    let arrived = all_to_all(&sent).unwrap();
    let g0 = a0.communicator().receive(&arrived[0]).unwrap();
    let g1 = a1.communicator().receive(&arrived[1]).unwrap();

    let mut y0 = IndexableVector::<i64>::new(&range0);
    let mut y1 = IndexableVector::<i64>::new(&range1);
    a0.multiply(1, &x0, &g0, 0, &mut y0).unwrap();
    a1.multiply(1, &x1, &g1, 0, &mut y1).unwrap();
    assert_eq!(y0.local(), &vec![50i64, 32]);
    assert_eq!(y1.local(), &vec![0i64]);
}

#[test]
fn alpha_and_beta_scale_the_product_and_the_old_value() {
    let m = example_matrix();
    let x: Vec<i64> = vec![1, 2, 3, 9, 4, 5];
    let mut y = vec![7i64, -1];
    csr_matvec(&m, 2, &x, 3, &mut y).unwrap();
    // 3 * 7 + 2 * 50, 3 * -1 + 2 * 32
    assert_eq!(y, vec![121, 61]);
    let dist = InProcessMatrix::from_csr(&m, &ProcessGroup::new(0, 2).unwrap()).unwrap();
    let mut z = vec![7i64, -1];
    dist.multiply(2, &x, 3, &mut z).unwrap();
    assert_eq!(z, vec![121, 61]);
}

fn sample_matrix(rows: usize, cols: usize, seed: u64) -> CsrMatrix<i64> {
    let mut state = seed.wrapping_mul(6364136223846793005).wrapping_add(1442695040888963407);
    let mut next = move || {
        state = state.wrapping_mul(6364136223846793005).wrapping_add(1442695040888963407);
        (state >> 33) as usize
    };
    let mut indptr = vec![0usize];
    let mut indices = Vec::new();
    let mut values = Vec::new();
    for _ in 0..rows {
        let count = if cols == 0 { 0 } else { next() % 5 };
        for _ in 0..count {
            indices.push(next() % cols);
            values.push((next() % 19) as i64 - 9);
        }
        indptr.push(indices.len());
    }
    CsrMatrix::new((rows, cols), indptr, indices, values).unwrap()
}

#[test]
fn distributed_and_single_process_products_agree() {
    for seed in 0..6u64 {
        for &(rows, cols) in &[(0usize, 0usize), (1, 1), (5, 3), (7, 7), (4, 11), (13, 6)] {
            let m = sample_matrix(rows, cols, seed);
            let x: Vec<i64> = (0..cols).map(|i| (i as i64) * 3 - 7).collect();
            let y0: Vec<i64> = (0..rows).map(|i| 11 - (i as i64)).collect();
            let mut expected = y0.clone();
            csr_matvec(&m, 3, &x, -2, &mut expected).unwrap();
            for p in 1..6usize {
                let dist = InProcessMatrix::from_csr(&m, &ProcessGroup::new(0, p).unwrap()).unwrap();
                let mut y = y0.clone();
                dist.multiply(3, &x, -2, &mut y).unwrap();
                assert_eq!(y, expected, "rows={} cols={} p={} seed={}", rows, cols, p, seed);
            }
        }
    }
}

#[test]
fn rebuilding_the_plan_gives_the_same_plan() {
    let m = sample_matrix(9, 12, 3);
    let group = ProcessGroup::new(0, 4).unwrap();
    let a = InProcessMatrix::from_csr(&m, &group).unwrap();
    let b = InProcessMatrix::from_csr(&m, &group).unwrap();
    for r in 0..4 {
        let ca = a.part(r).unwrap().communicator();
        let cb = b.part(r).unwrap().communicator();
        assert_eq!(ca.ghost_indices(), cb.ghost_indices());
        for q in 0..4 {
            assert_eq!(ca.send_list(q), cb.send_list(q));
            assert_eq!(ca.receive_list(q), cb.receive_list(q));
        }
    }
}

#[test]
fn a_second_product_sees_the_new_vector() {
    let m = example_matrix();
    let dist = InProcessMatrix::from_csr(&m, &ProcessGroup::new(0, 2).unwrap()).unwrap();
    let mut y = vec![0i64, 0];
    dist.multiply(1, &vec![1, 2, 3, 9, 4, 5], 0, &mut y).unwrap();
    assert_eq!(y, vec![50, 32]);
    // only the entry behind the ghost changes
    dist.multiply(1, &vec![1, 2, 3, 9, 4, 7], 0, &mut y).unwrap();
    assert_eq!(y, vec![68, 32]);
    let ghosts = dist.exchange(&vec![1, 2, 3, 9, 4, 7]).unwrap();
    assert_eq!(ghosts, vec![vec![7i64], vec![1, 2, 3]]);
    let ghosts = dist.exchange(&vec![10, 20, 30, 9, 4, -1]).unwrap();
    assert_eq!(ghosts, vec![vec![-1i64], vec![10, 20, 30]]);
}

#[test]
fn a_block_without_nonzeros_has_empty_lists() {
    let domain = layout(6, 3, 1);
    let req = GhostRequests::new(&domain, &vec![]).unwrap();
    assert_eq!(req.ghost_count(), 0);
    assert_eq!(req.requests(), vec![Vec::<usize>::new(); 3]);
    let c = GhostCommunicator::new(req, &vec![vec![], vec![], vec![]]).unwrap();
    for q in 0..3 {
        assert_eq!(c.send_list(q), Some(&vec![]));
        assert_eq!(c.receive_list(q), Some(vec![]));
    }
    let x = IndexableVector::from_local(&domain, vec![1i64, 2]).unwrap();
    assert_eq!(c.send_buffers(&x).unwrap(), vec![Vec::<i64>::new(); 3]);
    assert_eq!(c.receive::<i64>(&vec![vec![], vec![], vec![]]).unwrap(), Vec::<i64>::new());

    // a whole matrix without nonzeros
    let zero: CsrMatrix<i64> = CsrMatrix::new((3, 6), vec![0, 0, 0, 0], vec![], vec![]).unwrap();
    let dist = InProcessMatrix::from_csr(&zero, &ProcessGroup::new(0, 3).unwrap()).unwrap();
    let mut y = vec![1i64, 2, 3];
    dist.multiply(5, &vec![1, 1, 1, 1, 1, 1], 2, &mut y).unwrap();
    assert_eq!(y, vec![2, 4, 6]);
}

#[test]
fn ghosts_are_sorted_and_unique() {
    let domain = layout(10, 3, 1); // owns [4, 7)
    let req = GhostRequests::new(&domain, &vec![9, 0, 5, 9, 3, 8, 0, 4, 7]).unwrap();
    assert_eq!(req.ghost_indices(), &vec![0usize, 3, 7, 8, 9]);
    assert_eq!(req.requests(), vec![vec![0usize, 3], vec![], vec![7, 8, 9]]);
    assert_eq!(req.receive_list(0), Some(vec![0usize, 1]));
    assert_eq!(req.receive_list(1), Some(vec![]));
    assert_eq!(req.receive_list(2), Some(vec![2usize, 3, 4]));
    assert_eq!(req.slot_of(8), Some(3));
    assert_eq!(req.layout(), &domain);
}

#[test]
fn plan_errors() {
    let domain = layout(6, 2, 0);
    assert_eq!(
        GhostRequests::new(&domain, &vec![0, 6]).err(),
        Some(SparseError::OutOfRange)
    );
    let req = GhostRequests::new(&domain, &vec![4]).unwrap();
    assert_eq!(
        GhostCommunicator::new(req, &vec![vec![]]).err(),
        Some(SparseError::DimensionMismatch)
    );
    let req = GhostRequests::new(&domain, &vec![4]).unwrap();
    // rank 0 owns [0, 3): index 3 is not its own
    assert_eq!(
        GhostCommunicator::new(req, &vec![vec![], vec![3]]).err(),
        Some(SparseError::OutOfRange)
    );
    let req = GhostRequests::new(&domain, &vec![4]).unwrap();
    let c = GhostCommunicator::new(req, &vec![vec![], vec![2, 0]]).unwrap();
    assert_eq!(c.send_list(1), Some(&vec![2usize, 0]));
    let x_wrong = IndexableVector::from_local(&layout(6, 2, 1), vec![1i64, 2, 3]).unwrap();
    assert_eq!(c.send_buffers(&x_wrong).err(), Some(SparseError::LayoutMismatch));
    let x = IndexableVector::from_local(&domain, vec![10i64, 20, 30]).unwrap();
    assert_eq!(c.send_buffers(&x).unwrap(), vec![vec![], vec![30i64, 10]]);
    assert_eq!(
        c.receive::<i64>(&vec![vec![], vec![]]).err(),
        Some(SparseError::DimensionMismatch)
    );
    assert_eq!(
        c.receive::<i64>(&vec![vec![1]]).err(),
        Some(SparseError::DimensionMismatch)
    );
    assert_eq!(c.receive(&vec![vec![], vec![8i64]]).unwrap(), vec![8i64]);
}

#[test]
fn all_to_all_transposes_the_messages() {
    let out = vec![
        vec![vec![1u8], vec![2, 3]],
        vec![vec![], vec![4]],
    ];
    let got = all_to_all(&out).unwrap();
    assert_eq!(got, vec![vec![vec![1u8], vec![]], vec![vec![2, 3], vec![4]]]);
    let ragged = vec![vec![vec![1u8]], vec![vec![], vec![4]]];
    assert_eq!(all_to_all(&ragged).err(), Some(SparseError::DimensionMismatch));
    assert_eq!(all_to_all::<u8>(&vec![]).unwrap(), Vec::<Vec<Vec<u8>>>::new());
}

#[test]
fn multiply_errors() {
    let m = example_matrix();
    let domain0 = layout(6, 1, 0);
    let range0 = layout(2, 1, 0);
    let b = MpiCsrMatrix::prepare(m, &domain0, &range0).unwrap();
    let a = b.finish(&vec![vec![]]).unwrap();
    assert_eq!(a.domain_layout(), &domain0);
    assert_eq!(a.range_layout(), &range0);
    let x = IndexableVector::from_local(&domain0, vec![1i64, 2, 3, 9, 4, 5]).unwrap();
    let mut y = IndexableVector::<i64>::new(&range0);
    a.multiply(1, &x, &vec![], 0, &mut y).unwrap();
    assert_eq!(y.local(), &vec![50i64, 32]);

    // x laid out as the range, or y as the domain
    let mut y_wrong = IndexableVector::<i64>::new(&domain0);
    assert_eq!(
        a.multiply(1, &x, &vec![], 0, &mut y_wrong),
        Err(SparseError::LayoutMismatch)
    );
    let x_wrong = IndexableVector::<i64>::new(&range0);
    assert_eq!(a.multiply(1, &x_wrong, &vec![], 0, &mut y), Err(SparseError::LayoutMismatch));
    assert_eq!(y.local(), &vec![50i64, 32]);
    // one ghost value too many
    assert_eq!(a.multiply(1, &x, &vec![1], 0, &mut y), Err(SparseError::DimensionMismatch));

    // construction
    let m = example_matrix();
    assert_eq!(
        MpiCsrMatrix::prepare(m, &layout(6, 2, 0), &layout(2, 3, 0)).err(),
        Some(SparseError::LayoutMismatch)
    );
    let m = example_matrix();
    assert_eq!(
        MpiCsrMatrix::prepare(m, &layout(6, 2, 0), &layout(2, 2, 1)).err(),
        Some(SparseError::LayoutMismatch)
    );
    let m = example_matrix();
    assert_eq!(
        MpiCsrMatrix::prepare(m, &layout(7, 1, 0), &layout(2, 1, 0)).err(),
        Some(SparseError::DimensionMismatch)
    );
    let m = example_matrix();
    assert_eq!(
        MpiCsrMatrix::prepare(m, &layout(6, 1, 0), &layout(3, 1, 0)).err(),
        Some(SparseError::DimensionMismatch)
    );
    let bad: CsrMatrix<i64> = CsrMatrix::new((1, 2), vec![0, 1], vec![2], vec![1]).unwrap();
    assert_eq!(
        MpiCsrMatrix::prepare(bad, &layout(2, 1, 0), &layout(1, 1, 0)).err(),
        Some(SparseError::OutOfRange)
    );
    let bad: CsrMatrix<i64> = CsrMatrix::new((1, 2), vec![0, 1], vec![2], vec![1]).unwrap();
    assert_eq!(
        InProcessMatrix::from_csr(&bad, &ProcessGroup::new(0, 2).unwrap()).err(),
        Some(SparseError::OutOfRange)
    );
    let dist = InProcessMatrix::from_csr(&example_matrix(), &ProcessGroup::new(0, 2).unwrap()).unwrap();
    let mut y = vec![0i64; 2];
    assert_eq!(dist.multiply(1, &vec![0; 5], 0, &mut y), Err(SparseError::DimensionMismatch));
    let mut y3 = vec![0i64; 3];
    assert_eq!(dist.multiply(1, &vec![0; 6], 0, &mut y3), Err(SparseError::DimensionMismatch));
    assert_eq!(dist.exchange(&vec![0; 7]).err(), Some(SparseError::DimensionMismatch));
}

#[test]
fn wrapping_arithmetic_agrees_on_both_paths() {
    let m: CsrMatrix<i64> = CsrMatrix::new(
        (2, 2),
        vec![0, 2, 3],
        vec![0, 1, 0],
        vec![i64::MAX, 2, i64::MIN],
    )
    .unwrap();
    let x = vec![3i64, i64::MAX];
    let mut expected = vec![1i64, 1];
    csr_matvec(&m, 1, &x, 1, &mut expected).unwrap();
    assert_eq!(
        expected[0],
        1i64.wrapping_add(i64::MAX.wrapping_mul(3).wrapping_add(2i64.wrapping_mul(i64::MAX)))
    );
    let dist = InProcessMatrix::from_csr(&m, &ProcessGroup::new(0, 2).unwrap()).unwrap();
    let mut y = vec![1i64, 1];
    dist.multiply(1, &x, 1, &mut y).unwrap();
    assert_eq!(y, expected);
}

#[derive(Clone, Copy, Debug, PartialEq)]
struct Real(f64);

impl dist_sparse::types::Scalar for Real {
    fn zero_value() -> Self {
        Real(0.0)
    }

    fn one_value() -> Self {
        Real(1.0)
    }

    fn sum(self, rhs: Self) -> Self {
        Real(self.0 + rhs.0)
    }

    fn product(self, rhs: Self) -> Self {
        Real(self.0 * rhs.0)
    }

    fn negation(self) -> Self {
        Real(-self.0)
    }

    fn zero() -> Self {
        Real(0.0)
    }

    fn one() -> Self {
        Real(1.0)
    }

    fn plus(self, rhs: Self) -> Self {
        Real(self.0 + rhs.0)
    }

    fn times(self, rhs: Self) -> Self {
        Real(self.0 * rhs.0)
    }

    fn negate(self) -> Self {
        Real(-self.0)
    }
}

#[test]
fn floating_point_products_agree_on_both_paths() {
    let values: Vec<Real> = [1.0, 2.0, 9.0, 4.0, 5.0, 6.0].iter().map(|v| Real(*v)).collect();
    let m = CsrMatrix::new((2, 6), vec![0, 3, 6], vec![0, 1, 5, 0, 1, 2], values).unwrap();
    let x: Vec<Real> = [1.0, 2.0, 3.0, 9.0, 4.0, 5.0].iter().map(|v| Real(*v)).collect();
    let mut expected = vec![Real(0.5), Real(-1.5)];
    csr_matvec(&m, Real(1.0), &x, Real(2.0), &mut expected).unwrap();
    assert_eq!(expected, vec![Real(51.0), Real(29.0)]);
    for p in 1..5usize {
        let dist = InProcessMatrix::from_csr(&m, &ProcessGroup::new(0, p).unwrap()).unwrap();
        let mut y = vec![Real(0.5), Real(-1.5)];
        dist.multiply(Real(1.0), &x, Real(2.0), &mut y).unwrap();
        for (a, e) in y.iter().zip(expected.iter()) {
            assert!((a.0 - e.0).abs() <= 1e-12);
        }
    }
}

#[test]
fn row_blocks_of_a_matrix() {
    let m = CsrMatrix::new(
        (3, 6),
        vec![0, 3, 3, 6],
        vec![0, 1, 5, 0, 1, 2],
        vec![1i64, 2, 9, 4, 5, 6],
    )
    .unwrap();
    let blocks = row_blocks(&m, &layout(3, 2, 0)).unwrap();
    assert_eq!(blocks.len(), 2);
    assert_eq!(blocks[0].shape(), (2, 6));
    assert_eq!(blocks[0].indptr(), &vec![0usize, 3, 3]);
    assert_eq!(blocks[0].indices(), &vec![0usize, 1, 5]);
    assert_eq!(blocks[0].data(), &vec![1i64, 2, 9]);
    assert_eq!(blocks[1].shape(), (1, 6));
    assert_eq!(blocks[1].indptr(), &vec![0usize, 3]);
    assert_eq!(blocks[1].indices(), &vec![0usize, 1, 2]);
    assert_eq!(blocks[1].data(), &vec![4i64, 5, 6]);
    // more processes than rows
    let blocks = row_blocks(&m, &layout(3, 5, 4)).unwrap();
    assert_eq!(blocks.len(), 5);
    assert_eq!(blocks[3].shape(), (0, 6));
    assert_eq!(blocks[2].data(), &vec![4i64, 5, 6]);
    assert_eq!(row_blocks(&m, &layout(4, 2, 0)).err(), Some(SparseError::DimensionMismatch));
    assert_eq!(row_blocks(&m, &layout(2, 2, 0)).err(), Some(SparseError::DimensionMismatch));
}

fn two_parts_of_the_example() -> (MpiCsrMatrix<i64>, MpiCsrMatrix<i64>) {
    let empty_row: CsrMatrix<i64> = CsrMatrix::new((1, 6), vec![0, 0], vec![], vec![]).unwrap();
    let b0 = MpiCsrMatrix::prepare(example_matrix(), &layout(6, 2, 0), &layout(3, 2, 0)).unwrap();
    let b1 = MpiCsrMatrix::prepare(empty_row, &layout(6, 2, 1), &layout(3, 2, 1)).unwrap();
    let incoming = all_to_all(&vec![b0.requests(), b1.requests()]).unwrap();
    (b0.finish(&incoming[0]).unwrap(), b1.finish(&incoming[1]).unwrap())
}

fn product_on_two_parts(
    parts: &(MpiCsrMatrix<i64>, MpiCsrMatrix<i64>),
    alpha: i64,
    x0: &IndexableVector<i64>,
    x1: &IndexableVector<i64>,
    beta: i64,
    y0: &mut IndexableVector<i64>,
    y1: &mut IndexableVector<i64>,
) {
    let sent = vec![
        parts.0.communicator().send_buffers(x0).unwrap(),
        parts.1.communicator().send_buffers(x1).unwrap(),
    ];
    let arrived = all_to_all(&sent).unwrap();
    let g0 = parts.0.communicator().receive(&arrived[0]).unwrap();
    let g1 = parts.1.communicator().receive(&arrived[1]).unwrap();
    parts.0.multiply(alpha, x0, &g0, beta, y0).unwrap();
    parts.1.multiply(alpha, x1, &g1, beta, y1).unwrap();
}

#[test]
fn a_write_through_get_mut_reaches_the_next_product() {
    let parts = two_parts_of_the_example();
    let x0 = IndexableVector::from_local(&layout(6, 2, 0), vec![1i64, 2, 3]).unwrap();
    let mut x1 = IndexableVector::from_local(&layout(6, 2, 1), vec![9i64, 4, 5]).unwrap();
    let mut y0 = IndexableVector::<i64>::new(&layout(3, 2, 0));
    let mut y1 = IndexableVector::<i64>::new(&layout(3, 2, 1));
    product_on_two_parts(&parts, 1, &x0, &x1, 0, &mut y0, &mut y1);
    assert_eq!(y0.local(), &vec![50i64, 32]);

    // global index 5 is local offset 2 on rank 1 and a ghost on rank 0
    *x1.get_mut([2]).unwrap() = 7;
    product_on_two_parts(&parts, 1, &x0, &x1, 0, &mut y0, &mut y1);
    assert_eq!(y0.get_value([0]), Some(1 * 1 + 2 * 2 + 9 * 7));
    assert_eq!(y0.get_value([0]), Some(68));
    assert_eq!(y0.get_value([1]), Some(32));
}

#[test]
fn a_block_without_nonzeros_scales_its_part_of_the_result() {
    let parts = two_parts_of_the_example();
    let x0 = IndexableVector::from_local(&layout(6, 2, 0), vec![1i64, 2, 3]).unwrap();
    let x1 = IndexableVector::from_local(&layout(6, 2, 1), vec![9i64, 4, 5]).unwrap();
    let mut y0 = IndexableVector::from_local(&layout(3, 2, 0), vec![1i64, 1]).unwrap();
    let mut y1 = IndexableVector::from_local(&layout(3, 2, 1), vec![11i64]).unwrap();
    product_on_two_parts(&parts, 5, &x0, &x1, 3, &mut y0, &mut y1);
    // rank 1 holds one row without nonzeros
    assert_eq!(y1.get([0]), Some(&33));
    assert_eq!(y0.local(), &vec![3 + 5 * 50, 3 + 5 * 32]);
}
