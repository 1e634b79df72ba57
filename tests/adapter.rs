use pdf_maker::distribution::fill_demo_image;
use pdf_maker::{Adapter2D, Distribution1D, Distribution2D, DistributionError, Inversion1D};

#[test]
fn adapter_sample_and_pdf() {
    let grid = vec![vec![1u64, 3], vec![2, 2], vec![0, 8]];
    let a = Adapter2D::<Inversion1D>::build(&grid).unwrap();
    assert_eq!(a.conditional.len(), 3);
    assert_eq!(a.marginal.integral(), 16);
    assert_eq!(a.marginal.pdf(2), 8);
    // Row totals 4, 4, 8: u = 0 picks row 0, v = 0 picks column 0.
    assert_eq!(a.sample([0, 0]), (4, [0, 0]));
    // u = 3/4 picks row 2, whose only weighted column is 1.
    assert_eq!(a.sample([3 << 30, 0]), (64, [1, 2]));
    // u = 1/4 + epsilon picks row 1; v = 1/2 picks column 1.
    assert_eq!(a.sample([(1 << 30) + 1, 1 << 31]), (8, [1, 1]));
    assert_eq!(a.pdf([1, 0]), 12);
    assert_eq!(a.pdf([0, 2]), 0);
}

#[test]
fn adapter_density_matches_pdf() {
    let grid: Vec<Vec<u64>> = (0..7)
        .map(|y| (0..5).map(|x| ((x * 3 + y * 5) % 4) as u64).collect())
        .collect();
    let a = Adapter2D::<Inversion1D>::build(&grid).unwrap();
    let mut state: u32 = 1;
    for _ in 0..5000 {
        state = state.wrapping_mul(1_664_525).wrapping_add(1_013_904_223);
        let u = state;
        state = state.wrapping_mul(1_664_525).wrapping_add(1_013_904_223);
        let v = state;
        let (density, [x, y]) = a.sample([u, v]);
        assert_eq!(a.pdf([x, y]), density);
        let (dy, yy) = a.marginal.sample_discrete(u);
        let (dx, xx) = a.conditional[y].sample_discrete(v);
        assert_eq!((xx, yy), (x, y));
        assert_eq!(density, dx as u128 * dy as u128);
        let row_total: u64 = grid[y].iter().sum();
        assert_eq!(density, row_total as u128 * grid[y][x] as u128);
        assert!(grid[y][x] > 0);
    }
}

#[test]
fn adapter_build_errors() {
    let empty: Vec<Vec<u64>> = Vec::new();
    assert_eq!(Adapter2D::<Inversion1D>::build(&empty).err(), Some(DistributionError::Empty));
    let zero_row = vec![vec![1u64, 2], vec![0, 0], vec![]];
    assert_eq!(Adapter2D::<Inversion1D>::build(&zero_row).err(), Some(DistributionError::ZeroTotal));
    let empty_row = vec![vec![1u64, 2], vec![], vec![0, 0]];
    assert_eq!(Adapter2D::<Inversion1D>::build(&empty_row).err(), Some(DistributionError::Empty));
    let too_heavy = vec![vec![u64::MAX], vec![1]];
    assert_eq!(Adapter2D::<Inversion1D>::build(&too_heavy).err(), Some(DistributionError::Overflow));
}

#[test]
fn demo_image_marks_north_west_block() {
    let grid = vec![vec![0u64, 0, 1, 0], vec![0, 0, 0, 1]];
    let a = Adapter2D::<Inversion1D>::build(&grid).unwrap();
    let mut demo = vec![vec![0u8; 4]; 3];
    // Row 0 carries half the weight: u = 0 selects (2, 0), u = 3/4 selects (3, 1).
    fill_demo_image(&a, &mut demo, 9u8, &[[0, 0]]);
    assert_eq!(demo, vec![vec![0, 9, 9, 0], vec![0, 0, 0, 0], vec![0, 0, 0, 0]]);
    fill_demo_image(&a, &mut demo, 7u8, &[[3 << 30, 5]]);
    assert_eq!(demo, vec![vec![0, 9, 7, 7], vec![0, 0, 7, 7], vec![0, 0, 0, 0]]);
}

#[test]
fn demo_image_clamps_to_bounds() {
    let grid = vec![vec![0u64, 0, 0, 0, 0, 5]];
    let a = Adapter2D::<Inversion1D>::build(&grid).unwrap();
    let mut demo = vec![vec![0u8; 2]; 2];
    fill_demo_image(&a, &mut demo, 1u8, &[[0, 0], [123, 456]]);
    assert_eq!(demo, vec![vec![0, 1], vec![0, 0]]);
}
