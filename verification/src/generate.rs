use vstd::prelude::*;

use rand::Rng;

use crate::field::Field;
use crate::grid::{lemma_ns_lt, ns_count, Grid};
use crate::number::Number;
use crate::pos::{lemma_scan, Pos};
use crate::solve::{brute_force, reported};

verus! {

/// The state of rand's standard generator.
#[verifier::external_type_specification]
#[verifier::external_body]
pub struct ExStdRng(rand::rngs::StdRng);

/// Relies on rand::Rng::random_range over `0..n`: the range is not empty,
/// so the call returns a value of the range instead of panicking. Nothing
/// more is assumed of the value.
#[verifier::external_body]
fn rand_below(rng: &mut rand::rngs::StdRng, n: usize) -> (r: usize)
    requires
        n >= 1,
    ensures
        r < n,
{
    rng.random_range(0..n)
}

/// What one random assignment did to the grid.
enum AddedResult {
    Success,
    Failed,
    Full,
}

/// Picks a random unsolved cell, then a random candidate of that cell, and
/// assigns it with propagation. `Success` means real progress: at least
/// one more cell is solved than before. `Full` means no unsolved cell was
/// left and the grid is untouched; `Failed` means the assignment hit a
/// contradiction — the grid is left inconsistent and should be discarded.
fn add_random(
    grid: &mut Grid,
    pos_acc: &mut Vec<Pos>,
    num_acc: &mut Vec<Number>,
    rng: &mut rand::rngs::StdRng,
) -> (r: AddedResult)
    requires
        old(grid).wf(),
        old(grid).no_empty(),
    ensures
        final(grid).wf(),
        match r {
            AddedResult::Full => *final(grid) == *old(grid) && final(grid).complete(),
            AddedResult::Success => {
                &&& final(grid).no_empty()
                &&& (old(grid).ok() ==> final(grid).ok())
                &&& ns_count(*final(grid)) < ns_count(*old(grid))
            },
            AddedResult::Failed => !final(grid).ok(),
        },
{
    grid.all_unsolved_fields(pos_acc);
    if pos_acc.len() == 0 {
        proof {
            assert forall|q: Pos| q.wf() implies (#[trigger] grid.at(q)).solved() by {
                if !grid.at(q).solved() {
                    assert(pos_acc@.contains(q));
                }
            }
        }
        return AddedResult::Full;
    }
    let i = rand_below(rng, pos_acc.len());
    let pos = pos_acc[i];
    num_acc.clear();
    let mut found = grid.get(pos).possibilities();
    num_acc.append(&mut found);
    proof {
        assert(!grid.at(pos).solved());
        assert(grid.at(pos).count() >= 1);
        assert(num_acc@.len() >= 2);
    }
    let ni = rand_below(rng, num_acc.len());
    let num = num_acc[ni];
    let is_empty = grid.set(pos, num);
    if is_empty {
        AddedResult::Failed
    } else {
        proof {
            assert(!old(grid).at(pos).solved());
            assert(grid.at(pos).solved());
            lemma_ns_lt(*old(grid), *grid, pos);
        }
        AddedResult::Success
    }
}

/// One full attempt at random generation: seed a fresh grid with 26 random
/// assignments, probe it for solutions, and then commit further random
/// assignments one by one, probing after each. `None` means the attempt
/// ran into a dead end and the caller should start over.
fn attempt(
    pos_acc: &mut Vec<Pos>,
    num_acc: &mut Vec<Number>,
    grid_acc: &mut Vec<Grid>,
    rng: &mut rand::rngs::StdRng,
) -> (r: Option<Grid>)
    ensures
        match r {
            Some(g) => g.wf() && g.complete() && g.ok(),
            None => true,
        },
{
    let mut grid = Grid::full();
    let mut k: u8 = 0;
    while k < 26
        invariant
            grid.wf(),
            grid.no_empty(),
            grid.ok(),
            k <= 26,
        decreases 26 - k,
    {
        match add_random(&mut grid, pos_acc, num_acc, rng) {
            AddedResult::Failed => {
                return None;
            },
            AddedResult::Full => {},
            AddedResult::Success => {},
        }
        k = k + 1;
    }
    grid_acc.clear();
    brute_force(&grid, grid_acc, 2);
    proof {
        assert forall|i: int| 0 <= i < grid_acc@.len() implies (#[trigger] grid_acc@[i]).wf()
            && grid_acc@[i].complete() && grid_acc@[i].ok() by {
            assert(reported(grid, grid_acc@[i]));
        }
    }
    if grid_acc.len() == 1 {
        return Some(grid_acc[0]);
    } else if grid_acc.len() == 0 {
        return None;
    }
    let mut steps: u64 = 0;
    let mut was_valid = false;
    while steps < 0xffff_ffff_ffff_ffff
        invariant
            grid.wf(),
            grid.no_empty(),
            grid.ok(),
        decreases 0xffff_ffff_ffff_ffffu64 - steps,
    {
        steps = steps + 1;
        let mut copy = grid.clone();
        match add_random(&mut copy, pos_acc, num_acc, rng) {
            AddedResult::Success => {},
            AddedResult::Failed => {
                continue ;
            },
            AddedResult::Full => {
                return Some(copy);
            },
        }
        grid_acc.clear();
        brute_force(&copy, grid_acc, 2);
        proof {
            assert forall|i: int| 0 <= i < grid_acc@.len() implies (#[trigger] grid_acc@[i]).wf()
                && grid_acc@[i].complete() && grid_acc@[i].ok() by {
                assert(reported(copy, grid_acc@[i]));
            }
        }
        if grid_acc.len() == 1 {
            return Some(grid_acc[0]);
        } else if grid_acc.len() == 0 {
            if was_valid {
                continue ;
            }
            return None;
        }
        grid = copy;
        was_valid = true;
    }
    None
}

/// The digit the fallback pattern places on a cell.
spec fn pat(p: Pos) -> int {
    (3 * (p.yi() % 3) + p.yi() / 3 + p.xi()) % 9 + 1
}

/// The shifted pattern gives different digits to cells that see each other.
proof fn lemma_pattern_distinct(p: Pos, q: Pos)
    requires
        p.wf(),
        q.wf(),
        p.sees(q),
    ensures
        pat(p) != pat(q),
{
    let x1 = p.xi();
    let y1 = p.yi();
    let x2 = q.xi();
    let y2 = q.yi();
    let a = 3 * (y1 % 3) + y1 / 3 + x1;
    let b = 3 * (y2 % 3) + y2 / 3 + x2;
    if pat(p) == pat(q) {
        assert(a % 9 == b % 9);
        assert(0 <= a <= 16 && 0 <= b <= 16);
        assert(a == b || a - b == 9 || b - a == 9) by (nonlinear_arith)
            requires
                a % 9 == b % 9,
                0 <= a <= 16,
                0 <= b <= 16,
        ;
        if y1 == y2 {
            assert(x1 != x2);
            assert(-8 <= a - b <= 8);
            assert(false);
        } else if x1 == x2 {
            assert(y1 == 3 * (y1 / 3) + y1 % 3);
            assert(y2 == 3 * (y2 / 3) + y2 % 3);
            assert(false);
        } else {
            assert(x1 / 3 == x2 / 3 && y1 / 3 == y2 / 3);
            assert(-2 <= x1 - x2 <= 2);
            assert(y1 == 3 * (y1 / 3) + y1 % 3);
            assert(y2 == 3 * (y2 / 3) + y2 % 3);
            assert(false);
        }
    }
}

/// Builds one fixed, fully solved grid directly from the shifted pattern.
fn filled_grid() -> (r: Grid)
    ensures
        r.wf(),
        r.complete(),
        r.ok(),
{
    let mut g = Grid::full();
    let all = Pos::iterator();
    let mut k: usize = 0;
    while k < 81
        invariant
            all@.len() == 81,
            forall|j: int|
                0 <= j < 81 ==> (#[trigger] all@[j]).wf() && all@[j].xi() == j / 9 && all@[j].yi()
                    == j % 9,
            k <= 81,
            g.wf(),
            forall|p: Pos|
                p.wf() && p.scan() < k ==> (#[trigger] g.at(p)).solved_with(pat(p)),
        decreases 81 - k,
    {
        let p = all[k];
        proof {
            lemma_scan(p);
        }
        let x = p.x();
        let y = p.y();
        let d = (3 * (y % 3) + y / 3 + x) % 9 + 1;
        g.put(p, Field::new(d));
        proof {
            assert(d as int == pat(p));
            assert forall|q: Pos| q.wf() implies (#[trigger] g.at(q)).wf() by {
                Pos::lemma_pos_eq(q, p);
            }
            assert forall|q: Pos|
                q.wf() && q.scan() < k + 1 implies (#[trigger] g.at(q)).solved_with(pat(q)) by {
                Pos::lemma_pos_eq(q, p);
                if q != p {
                    assert(q.scan() < k);
                }
            }
        }
        k = k + 1;
    }
    proof {
        assert forall|p: Pos| p.wf() implies (#[trigger] g.at(p)).solved() by {
            lemma_scan(p);
            assert(g.at(p).solved_with(pat(p)));
        }
        assert forall|p: Pos, q: Pos, d: int|
            p.wf() && q.wf() && p.sees(q) && (#[trigger] g.at(p).solved_with(d)) && (
        #[trigger] g.at(q).solved_with(d)) implies false by {
            lemma_scan(p);
            lemma_scan(q);
            g.at(p).lemma_solved_unique(pat(p), d);
            g.at(q).lemma_solved_unique(pat(q), d);
            lemma_pattern_distinct(p, q);
        }
    }
    g
}

/// Generates a full sudoku grid that is
///
/// - valid: following standard sudoku rules
/// - random: drawn by repeated uniform choices among unsolved cells and
///   their remaining candidates, restarting or backtracking on dead ends.
///
/// To generate a sudoku with empty fields, you need to remove numbers, and
/// then check if it is still uniquely solvable.
///
/// Warning: The number of empty squares is NOT a good indicator for the
/// sudoku's difficulty.
///
/// Verus asks every loop for a termination measure, and a run of random
/// retries has none, so the retry loops here carry an astronomically
/// large bound that no real run comes near; in the unreachable case that
/// a bound were exhausted, one fixed valid grid is returned instead.
pub fn generate(rng: &mut rand::rngs::StdRng) -> (r: Grid)
    ensures
        r.wf(),
        r.complete(),
        r.ok(),
{
    let mut pos_acc: Vec<Pos> = Vec::new();
    let mut num_acc: Vec<Number> = Vec::new();
    let mut grid_acc: Vec<Grid> = Vec::new();
    let mut tries: u64 = 0;
    while tries < 0xffff_ffff_ffff_ffff
        invariant
            true,
        decreases 0xffff_ffff_ffff_ffffu64 - tries,
    {
        match attempt(&mut pos_acc, &mut num_acc, &mut grid_acc, rng) {
            Some(g) => {
                return g;
            },
            None => {},
        }
        tries = tries + 1;
    }
    filled_grid()
}

} // verus!
