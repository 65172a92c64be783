use rand::SeedableRng;
use sudoku::{generate, solve, Field, Grid, Number, Pos, SolveOptions};

/// The digit a simple shifted pattern puts at column `x`, row `y`; the
/// pattern is a valid solved sudoku.
fn pattern(x: u8, y: u8) -> u8 {
    (3 * (y % 3) + y / 3 + x) % 9 + 1
}

/// A known hard 17-clue puzzle with a unique solution, as `(x, y, digit)`.
fn hard_clues() -> Vec<(u8, u8, u8)> {
    vec![
        (1, 0, 7),
        (5, 0, 4),
        (4, 1, 5),
        (6, 1, 1),
        (0, 2, 8),
        (6, 2, 6),
        (3, 3, 6),
        (6, 3, 2),
        (2, 4, 1),
        (1, 5, 5),
        (0, 6, 2),
        (3, 6, 1),
        (7, 6, 4),
        (3, 7, 3),
        (7, 7, 5),
        (0, 8, 6),
        (4, 8, 7),
    ]
}

fn hard_puzzle() -> Grid {
    let mut fields = [[Field::full(); 9]; 9];
    for (x, y, d) in hard_clues() {
        fields[y as usize][x as usize] = Field::new(d);
    }
    Grid::new(fields)
}

fn assert_valid_solved(g: &Grid) {
    for y in 0..9u8 {
        let mut seen = [false; 10];
        for x in 0..9u8 {
            let d = g.get(Pos::new(x, y)).solution().expect("cell solved").as_u8();
            assert!(!seen[d as usize], "digit {d} twice in row {y}");
            seen[d as usize] = true;
        }
    }
    for x in 0..9u8 {
        let mut seen = [false; 10];
        for y in 0..9u8 {
            let d = g.get(Pos::new(x, y)).solution().unwrap().as_u8();
            assert!(!seen[d as usize], "digit {d} twice in column {x}");
            seen[d as usize] = true;
        }
    }
    for bx in 0..3u8 {
        for by in 0..3u8 {
            let mut seen = [false; 10];
            for i in 0..9u8 {
                let p = Pos::new(3 * bx + i % 3, 3 * by + i / 3);
                let d = g.get(p).solution().unwrap().as_u8();
                assert!(!seen[d as usize], "digit {d} twice in block ({bx}, {by})");
                seen[d as usize] = true;
            }
        }
    }
}

#[test]
fn generated_grid_is_fully_valid() {
    let mut rng = rand::rngs::StdRng::seed_from_u64(7);
    let g = generate(&mut rng);
    assert_valid_solved(&g);
}

#[test]
fn generate_is_deterministic_per_seed() {
    let mut rng1 = rand::rngs::StdRng::seed_from_u64(42);
    let mut rng2 = rand::rngs::StdRng::seed_from_u64(42);
    let g1 = generate(&mut rng1);
    let g2 = generate(&mut rng2);
    assert_eq!(g1, g2);
}

#[test]
fn hard_puzzle_has_exactly_one_solution() {
    let puzzle = hard_puzzle();
    let mut acc = Vec::new();
    let mut options = SolveOptions::default();
    options.max_solutions = 5;
    solve(&puzzle, &mut acc, options);
    assert_eq!(acc.len(), 1);
    assert_valid_solved(&acc[0]);
}

#[test]
fn unique_solution_is_returned_with_max_one() {
    let puzzle = hard_puzzle();

    let mut all = Vec::new();
    let mut options = SolveOptions::default();
    options.max_solutions = 5;
    solve(&puzzle, &mut all, options);
    assert_eq!(all.len(), 1);

    let mut first = Vec::new();
    solve(&puzzle, &mut first, SolveOptions::default());
    assert_eq!(first.len(), 1);
    assert_eq!(first[0], all[0]);

    // the solution keeps every clue of the puzzle
    for (x, y, d) in hard_clues() {
        let sol = first[0].get(Pos::new(x, y)).solution().unwrap();
        assert_eq!(sol.as_u8(), d);
    }
}

#[test]
fn solved_input_passes_through_unchanged() {
    let mut fields = [[Field::full(); 9]; 9];
    for y in 0..9u8 {
        for x in 0..9u8 {
            fields[y as usize][x as usize] = Field::new(pattern(x, y));
        }
    }
    let g = Grid::new(fields);
    for y in 0..9u8 {
        for x in 0..9u8 {
            let cell = g.get(Pos::new(x, y));
            assert_eq!(cell.len(), 1);
            assert_eq!(cell.solution().unwrap().as_u8(), pattern(x, y));
        }
    }
    assert_valid_solved(&g);
}

#[test]
fn unsolvable_cell_yields_no_solution() {
    let mut empty_cell = Field::new(1);
    empty_cell.remove(Number::new(1));
    let mut fields = [[Field::full(); 9]; 9];
    fields[0][0] = empty_cell;
    let g = Grid::new(fields);
    let mut acc = Vec::new();
    let mut options = SolveOptions::default();
    options.max_solutions = 5;
    solve(&g, &mut acc, options);
    assert_eq!(acc.len(), 0);

    // a cell with no possibilities left is not an unsolved cell to pick
    let mut unsolved = Vec::new();
    g.all_unsolved_fields(&mut unsolved);
    assert!(!unsolved.contains(&Pos::new(0, 0)));
    assert_eq!(unsolved.len(), 80);
}

#[test]
fn assignment_propagates_to_visible_cells() {
    let mut g = Grid::full();
    let contra = g.set(Pos::new(0, 0), Number::new(5));
    assert!(!contra);
    assert_eq!(g.get(Pos::new(0, 0)).solution().map(|n| n.as_u8()), Some(5));
    for q in Pos::new(0, 0).get_visible_positions() {
        assert!(!g.get(q).contains(Number::new(5)));
        assert_eq!(g.get(q).len(), 8);
    }
    // an untouched far cell still has all nine candidates
    assert_eq!(g.get(Pos::new(4, 4)).len(), 9);

    let contra = g.set(Pos::new(1, 0), Number::new(5));
    assert!(contra, "placing the same digit in the same row must fail");
}

#[test]
fn best_guess_points_at_fewest_candidates() {
    // on an unconstrained grid every cell is unsolved, and ties go to the
    // first cell in canonical order
    assert_eq!(Grid::full().best_field_to_guess(), Some(Pos::new(0, 0)));

    let mut g = Grid::full();
    let contra = g.set(Pos::new(4, 4), Number::new(3));
    assert!(!contra);
    // the first constrained cell in canonical order is in column 0 of row 4
    assert_eq!(g.best_field_to_guess(), Some(Pos::new(0, 4)));

    // a fully solved grid has nothing to guess
    let puzzle = hard_puzzle();
    let mut acc = Vec::new();
    solve(&puzzle, &mut acc, SolveOptions::default());
    assert!(acc[0].best_field_to_guess().is_none());
}

#[test]
fn unsolved_cells_are_listed_in_order() {
    let mut acc = Vec::new();
    Grid::full().all_unsolved_fields(&mut acc);
    assert_eq!(acc.len(), 81);
    assert_eq!(acc[0], Pos::new(0, 0));
    assert_eq!(acc[80], Pos::new(8, 8));

    let puzzle = hard_puzzle();
    let mut solved = Vec::new();
    solve(&puzzle, &mut solved, SolveOptions::default());
    solved[0].all_unsolved_fields(&mut acc);
    assert_eq!(acc.len(), 0);
}

#[test]
fn default_options_ask_for_one_solution() {
    assert_eq!(SolveOptions::default().max_solutions, 1);
}

#[test]
fn over_collection_past_max_is_possible_but_bounded() {
    // an almost empty puzzle has many solutions; with a cap of 2 the
    // search reports at least 2 of them and stops soon after
    let mut fields = [[Field::full(); 9]; 9];
    fields[0][0] = Field::new(1);
    let g = Grid::new(fields);
    let mut acc = Vec::new();
    let mut options = SolveOptions::default();
    options.max_solutions = 2;
    solve(&g, &mut acc, options);
    assert!(acc.len() >= 2);
    for (i, s) in acc.iter().enumerate() {
        assert_valid_solved(s);
        assert_eq!(s.get(Pos::new(0, 0)).solution().unwrap().as_u8(), 1);
        for t in acc[i + 1..].iter() {
            assert!(s != t, "the same solution was collected twice");
        }
    }
}
