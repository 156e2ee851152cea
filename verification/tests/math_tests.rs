use liteparse_coverage::gf2::gaussian_elimination_rank_z2;
use liteparse_coverage::union_find::UnionFind;
use liteparse_coverage::complex::{boundary_matrix, compute_simple_betti, faces_of_size};

#[test]
fn rank_of_identity_and_dependent_columns() {
    let id = vec![vec![true, false, false], vec![false, true, false], vec![false, false, true]];
    assert_eq!(gaussian_elimination_rank_z2(&id, 3, 3), 3);
    // third column is the sum of the first two over GF(2)
    let dep = vec![vec![true, false, true], vec![false, true, true]];
    assert_eq!(gaussian_elimination_rank_z2(&dep, 3, 2), 2);
    let zero = vec![vec![false, false], vec![false, false]];
    assert_eq!(gaussian_elimination_rank_z2(&zero, 2, 2), 0);
    assert_eq!(gaussian_elimination_rank_z2(&id, 0, 3), 0);
}

#[test]
fn union_find_merges_classes() {
    let mut uf = UnionFind::new(5);
    uf.union(0, 1);
    uf.union(3, 4);
    uf.union(1, 4);
    assert_eq!(uf.find(0), uf.find(3));
    assert_ne!(uf.find(0), uf.find(2));
    assert_eq!(uf.find(2), 2);
}

#[test]
fn simple_betti_of_nothing_is_zeros() {
    assert_eq!(compute_simple_betti(&vec![], 0b111), vec![0, 0, 0]);
    assert_eq!(compute_simple_betti(&vec![], 0), Vec::<usize>::new());
}

#[test]
fn simple_betti_of_a_cycle() {
    // square: four vertices, four edges, no filling
    let masks = vec![0b0011, 0b0110, 0b1100, 0b1001];
    assert_eq!(compute_simple_betti(&masks, 0b1111), vec![1, 1, 0, 0, 0]);
}

#[test]
fn faces_in_increasing_order() {
    let masks = vec![0b111];
    assert_eq!(faces_of_size(&masks, 2), vec![0b011, 0b101, 0b110]);
    assert_eq!(faces_of_size(&masks, 1), vec![0b001, 0b010, 0b100]);
    assert_eq!(faces_of_size(&masks, 3), vec![0b111]);
    assert!(faces_of_size(&masks, 4).is_empty());
}

#[test]
fn boundary_of_boundary_vanishes() {
    // a filled tetrahedron on four features
    let masks = vec![0b1111];
    for k in 1..3 {
        let lower = faces_of_size(&masks, k);
        let mid = faces_of_size(&masks, k + 1);
        let upper = faces_of_size(&masks, k + 2);
        let a = boundary_matrix(&lower, &mid);
        let b = boundary_matrix(&mid, &upper);
        for g in 0..lower.len() {
            for f in 0..upper.len() {
                let mut parity = false;
                for h in 0..mid.len() {
                    parity ^= a[g][h] && b[h][f];
                }
                assert!(!parity);
            }
        }
    }
}

#[test]
fn rank_does_not_depend_on_column_order() {
    let m = vec![
        vec![true, true, false, true],
        vec![false, true, true, true],
        vec![true, false, true, false],
    ];
    // columns reversed
    let r: Vec<Vec<bool>> = m.iter().map(|row| row.iter().rev().cloned().collect()).collect();
    assert_eq!(gaussian_elimination_rank_z2(&m, 4, 3), 2);
    assert_eq!(gaussian_elimination_rank_z2(&r, 4, 3), 2);
}

#[test]
fn rank_does_not_depend_on_row_order() {
    let m = vec![
        vec![true, true, false, true],
        vec![false, true, true, true],
        vec![true, false, true, false],
    ];
    let mut rows = m.clone();
    rows.reverse();
    rows.push(m[1].clone());
    assert_eq!(gaussian_elimination_rank_z2(&m, 4, 3), 2);
    assert_eq!(gaussian_elimination_rank_z2(&rows, 4, 0), 2);
}

#[test]
fn betti_numbers_at_most_faces_of_their_dimension() {
    let masks = vec![0b0011, 0b0110, 0b1100, 0b1001, 0b0101];
    let betti = compute_simple_betti(&masks, 0b1111);
    assert_eq!(betti, vec![1, 2, 0, 0, 0]);
    assert!(betti[0] >= 1 && betti[0] <= 4);
    for k in 1..betti.len() {
        assert!(betti[k] <= faces_of_size(&masks, k + 1).len());
    }
}

#[test]
fn rank_of_transpose_is_the_same() {
    let m = vec![
        vec![true, true, false, true, false],
        vec![false, true, true, true, false],
        vec![true, false, true, false, false],
    ];
    let t: Vec<Vec<bool>> = (0..5).map(|c| (0..3).map(|r| m[r][c]).collect()).collect();
    assert_eq!(gaussian_elimination_rank_z2(&m, 5, 3), 2);
    assert_eq!(gaussian_elimination_rank_z2(&t, 3, 5), 2);
}
