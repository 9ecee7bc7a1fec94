use pipe_wfc::{
    all_variants, boundary_filter, facing_filter, get_min_enthropy, is_collapsed,
    min_entropy_cells, render, Connection, Grid, Side, WfcError,
};
use rand::rngs::StdRng;
use rand::SeedableRng;

fn blank() -> Connection {
    Connection::new(11, false, false, false, false)
}

#[test]
fn test_is_collapsed() {
    let collapsed_grid = vec![vec![vec![0]; 32]; 32];
    let uncollapsed_grid = vec![vec![vec![0; 32]; 32]; 32];
    assert!(is_collapsed(&collapsed_grid));
    assert!(!is_collapsed(&uncollapsed_grid));
}

#[test]
fn test_get_min_enthropy() {
    let mut grid = vec![vec![vec![69; 32]; 32]; 32];
    grid[24][12].pop();
    grid[2][5] = vec![420];
    let mut rng = StdRng::seed_from_u64(7);
    let res = get_min_enthropy(&grid, &mut rng);
    assert_eq!(res, Ok((24, 12)));
}

#[test]
fn empty_grid_is_collapsed() {
    let grid: Vec<Vec<Vec<u8>>> = Vec::new();
    assert!(is_collapsed(&grid));
}

#[test]
fn one_multi_cell_is_not_collapsed() {
    let mut grid = vec![vec![vec![1u8]; 4]; 3];
    grid[2][3] = vec![1, 2];
    assert!(!is_collapsed(&grid));
}

#[test]
fn min_entropy_on_done_grid_is_error() {
    let grid = vec![vec![vec![5u8]; 3]; 3];
    let mut rng = StdRng::seed_from_u64(1);
    assert_eq!(get_min_enthropy(&grid, &mut rng), Err(WfcError::NoUndecidedCell));
}

#[test]
fn min_entropy_cells_lists_ties_in_row_major_order() {
    let mut grid = vec![vec![vec![0u8; 4]; 3]; 3];
    grid[2][0] = vec![0, 0];
    grid[0][1] = vec![0, 0];
    grid[1][1] = vec![0];
    grid[1][2] = vec![];
    assert_eq!(min_entropy_cells(&grid), vec![(0, 1), (2, 0)]);
}

#[test]
fn min_entropy_choice_is_one_of_the_ties() {
    let mut grid = vec![vec![vec![0u8; 4]; 3]; 3];
    grid[2][0] = vec![0, 0];
    grid[0][1] = vec![0, 0];
    for seed in 0..20 {
        let mut rng = StdRng::seed_from_u64(seed);
        let r = get_min_enthropy(&grid, &mut rng).unwrap();
        assert!(r == (0, 1) || r == (2, 0));
    }
}

#[test]
fn catalog_covers_every_flag_combination_once() {
    let all = all_variants();
    assert_eq!(all.len(), 16);
    let mut seen = vec![false; 16];
    for (i, t) in all.iter().enumerate() {
        assert_eq!(t.index, i);
        let code = (t.north as usize) * 8 + (t.south as usize) * 4 + (t.east as usize) * 2 + (t.west as usize);
        assert!(!seen[code]);
        seen[code] = true;
    }
    assert_eq!(all[11], blank());
    assert_eq!(all[0], Connection::new(0, true, false, false, true));
}

#[test]
fn boundary_filter_at_top_left_corner() {
    let kept = boundary_filter(&all_variants(), 0, 0, 5, 5);
    let idx: Vec<usize> = kept.iter().map(|t| t.index).collect();
    assert_eq!(idx, vec![2, 11, 12, 13]);
}

#[test]
fn boundary_filter_inside_keeps_everything() {
    let kept = boundary_filter(&all_variants(), 2, 2, 5, 5);
    assert_eq!(kept, all_variants());
}

#[test]
fn boundary_filter_is_idempotent() {
    let once = boundary_filter(&all_variants(), 4, 0, 3, 5);
    let twice = boundary_filter(&once, 4, 0, 3, 5);
    assert_eq!(once, twice);
    assert!(once.iter().all(|t| !t.south && !t.west));
    assert_eq!(once.len(), 4);
}

#[test]
fn single_cell_grid_keeps_only_blank() {
    let kept = boundary_filter(&all_variants(), 0, 0, 1, 1);
    assert_eq!(kept, vec![blank()]);
}

#[test]
fn facing_filter_keeps_matching_side() {
    let kept = facing_filter(&all_variants(), Side::South, true);
    let idx: Vec<usize> = kept.iter().map(|t| t.index).collect();
    assert_eq!(idx, vec![1, 2, 4, 6, 7, 9, 10, 12]);
    assert_eq!(Side::South.opposite(), Side::North);
    assert!(all_variants()[0].has_side(Side::West));
}

#[test]
fn new_grid_is_full() {
    let g = Grid::new(3, 2);
    assert_eq!(g.cells.len(), 2);
    assert!(g.cells.iter().all(|row| row.len() == 3 && row.iter().all(|c| *c == all_variants())));
    assert!(!g.is_done());
}

#[test]
fn collapse_cell_fixes_one_fitting_variant() {
    for seed in 0..16 {
        let mut g = Grid::new(4, 3);
        let mut rng = StdRng::seed_from_u64(seed);
        let t = g.collapse_cell(2, 3, &mut rng).unwrap();
        assert_eq!(g.cells[2][3], vec![t]);
        assert!(!t.south && !t.east);
        assert_eq!(g.cells[0][0].len(), 16);
    }
}

#[test]
fn collapse_cell_with_nothing_fitting_fails() {
    let mut g = Grid::new(3, 3);
    g.cells[0][1] = vec![Connection::new(15, true, false, false, false)];
    let before = g.cells.clone();
    let mut rng = StdRng::seed_from_u64(3);
    assert_eq!(g.collapse_cell(0, 1, &mut rng), Err(WfcError::UnsatisfiableCell { row: 0, col: 1 }));
    assert_eq!(g.cells, before);
}

#[test]
fn propagate_narrows_each_neighbour() {
    let mut g = Grid::new(3, 3);
    let cross = all_variants()[10];
    g.cells[1][1] = vec![cross];
    g.cells[1][2] = vec![blank()];
    assert_eq!(g.propagate(1, 1, cross), Ok(()));
    assert!(g.cells[0][1].iter().all(|t| t.south));
    assert_eq!(g.cells[0][1].len(), 8);
    assert!(g.cells[2][1].iter().all(|t| t.north));
    assert!(g.cells[1][0].iter().all(|t| t.east));
    // an already decided neighbour is left alone
    assert_eq!(g.cells[1][2], vec![blank()]);
    assert_eq!(g.cells[0][0].len(), 16);
}

#[test]
fn propagate_reports_contradiction_and_keeps_grid() {
    let mut g = Grid::new(2, 2);
    let corner = all_variants()[2];
    g.cells[0][0] = vec![corner];
    g.cells[1][0] = vec![all_variants()[11], all_variants()[13]];
    let before = g.cells.clone();
    assert_eq!(g.propagate(0, 0, corner), Err(WfcError::Contradiction { row: 1, col: 0 }));
    assert_eq!(g.cells, before);
}

#[test]
fn select_cell_on_done_grid_fails() {
    let mut g = Grid::new(2, 2);
    for r in 0..2 {
        for c in 0..2 {
            g.cells[r][c] = vec![blank()];
        }
    }
    let mut rng = StdRng::seed_from_u64(0);
    assert!(g.is_done());
    assert_eq!(g.select_cell(&mut rng), Err(WfcError::NoUndecidedCell));
    assert_eq!(g.step(&mut rng), Err(WfcError::NoUndecidedCell));
}

#[test]
fn select_cell_finds_unique_minimum() {
    let mut g = Grid::new(4, 4);
    g.cells[3][1].truncate(5);
    let mut rng = StdRng::seed_from_u64(11);
    assert_eq!(g.select_cell(&mut rng), Ok((3, 1)));
}

#[test]
fn step_collapses_and_propagates() {
    let mut g = Grid::new(3, 3);
    g.cells[1][1].truncate(3);
    let mut rng = StdRng::seed_from_u64(5);
    let (r, c, t) = g.step(&mut rng).unwrap();
    assert_eq!((r, c), (1, 1));
    assert_eq!(g.cells[1][1], vec![t]);
    assert!(g.cells[0][1].iter().all(|n| n.south == t.north));
    assert!(g.cells[1][2].iter().all(|n| n.west == t.east));
}

#[test]
fn run_on_single_cell_takes_one_step() {
    for seed in 0..10 {
        let mut g = Grid::new(1, 1);
        let mut rng = StdRng::seed_from_u64(seed);
        assert_eq!(g.run(&mut rng), Ok(1));
        assert_eq!(g.cells[0][0], vec![blank()]);
    }
}

#[test]
fn run_finishes_within_cell_count_and_corners_stay_closed() {
    for seed in 0..10 {
        let (w, h) = (7, 5);
        let mut g = Grid::new(w, h);
        let mut rng = StdRng::seed_from_u64(seed);
        let n = g.run(&mut rng).unwrap();
        assert!(n >= 1 && n <= w * h);
        assert!(g.is_done());
        let tl = g.cells[0][0][0];
        let tr = g.cells[0][w - 1][0];
        let bl = g.cells[h - 1][0][0];
        let br = g.cells[h - 1][w - 1][0];
        assert!(!tl.north && !tl.west);
        assert!(!tr.north && !tr.east);
        assert!(!bl.south && !bl.west);
        assert!(!br.south && !br.east);
    }
}

#[test]
fn run_on_done_grid_takes_no_step() {
    let mut g = Grid::new(0, 0);
    let mut rng = StdRng::seed_from_u64(0);
    assert_eq!(g.run(&mut rng), Ok(0));
}

#[test]
fn render_shows_blanks_and_glyphs() {
    let chars: Vec<char> = "abcdefghijklmnop".chars().collect();
    let mut g = Grid::new(2, 2);
    g.cells[0][1] = vec![all_variants()[3]];
    g.cells[1][0] = vec![blank()];
    let text: String = render(&g, &chars).into_iter().collect();
    assert_eq!(text, " d\nl \n");
}
