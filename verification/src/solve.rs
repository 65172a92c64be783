use vstd::prelude::*;

use crate::grid::{
    assign_of, fits, keeps_solutions, lemma_assign_of, lemma_ns_lt, ns_count, set_mono, sol_of,
    Grid,
};
use crate::pos::Pos;

verus! {

/// Options for [solve].
#[derive(Debug, Clone, PartialEq, Eq)]
#[non_exhaustive]
pub struct SolveOptions {
    /// Number of solutions after which we can stop looking for more.
    /// Due to the recursive implementation, the function may return more
    /// solutions than asked.
    pub max_solutions: usize,
}

impl Default for SolveOptions {
    /// By default only the first solution is looked for.
    fn default() -> (r: Self)
        ensures
            r.max_solutions == 1,
    {
        SolveOptions { max_solutions: 1 }
    }
}

/// What each grid the search reports is like: well-formed, fully solved,
/// within the candidates the searched grid still had, and consistent if
/// that grid was.
pub open spec fn reported(g: Grid, r: Grid) -> bool {
    &&& r.wf()
    &&& r.complete()
    &&& r.refines(g)
    &&& (g.ok() ==> r.ok())
}

/// Solves the sudoku grid, putting all discovered solutions in the `acc`
/// vector.
///
/// By default, only the first solution is provided, after which we stop
/// looking for more. This behaviour can be changed by setting the
/// `max_solutions` field in [SolveOptions]. Because the stop check runs
/// only after a whole branch has been explored, more solutions than asked
/// for can be reported.
pub fn solve(grid: &Grid, acc: &mut Vec<Grid>, options: SolveOptions)
    requires
        grid.wf(),
    ensures
        old(acc)@.len() <= final(acc)@.len(),
        forall|i: int| 0 <= i < old(acc)@.len() ==> final(acc)@[i] == old(acc)@[i],
        forall|i: int|
            old(acc)@.len() <= i < final(acc)@.len() ==> reported(*grid, #[trigger] final(acc)@[i]),
        final(acc)@.len() <= (if old(acc)@.len() + 1 >= options.max_solutions {
            old(acc)@.len() + 1int
        } else {
            options.max_solutions as int
        }),
        final(acc)@.len() < options.max_solutions ==> (forall|a: Seq<int>|
            #[trigger] sol_of(a, *grid) ==> exists|i: int|
                old(acc)@.len() <= i < final(acc)@.len() && fits(a, #[trigger] final(acc)@[i])),
        forall|a: Seq<int>|
            (old(acc)@.len() == 0 && options.max_solutions == 1 && grid.ok()
                && #[trigger] sol_of(a, *grid) && (forall|b: Seq<int>|
                sol_of(b, *grid) ==> b =~= a)) ==> (final(acc)@.len() == 1
                && final(acc)@[0].complete() && final(acc)@[0].ok() && fits(a, final(acc)@[0])),
        forall|i1: int, i2: int|
            old(acc)@.len() <= i1 < i2 < final(acc)@.len() ==> final(acc)@[i1] != final(acc)@[i2],
{
    brute_force(grid, acc, options.max_solutions);
    proof {
        assert forall|a: Seq<int>|
            (old(acc)@.len() == 0 && options.max_solutions == 1 && grid.ok()
                && #[trigger] sol_of(a, *grid) && (forall|b: Seq<int>|
                sol_of(b, *grid) ==> b =~= a)) implies (acc@.len() == 1 && acc@[0].complete()
            && acc@[0].ok() && fits(a, acc@[0])) by {
            if acc@.len() == 0 {
                assert(exists|i: int| 0 <= i < 0 && fits(a, #[trigger] acc@[i]));
            }
            assert(acc@.len() == 1);
            assert(reported(*grid, acc@[0]));
            let r = acc@[0];
            lemma_assign_of(r);
            let b = assign_of(r);
            assert(fits(b, r));
            assert forall|p: Pos| p.wf() implies (#[trigger] grid.at(p)).has(b[p.idx()]) by {
                assert(r.at(p).has(b[p.idx()]));
                assert(r.at(p).subset_of(grid.at(p)));
            }
            assert(sol_of(b, *grid));
            assert(b =~= a);
            assert(fits(a, r));
        }
    }
}

/// The recursive search behind [solve]: guesses at a branching cell,
/// explores each candidate on a copy, and stops trying further candidates
/// once `max_solutions` grids have been collected.
pub(crate) fn brute_force(grid: &Grid, acc: &mut Vec<Grid>, max_solutions: usize)
    requires
        grid.wf(),
    ensures
        old(acc)@.len() <= final(acc)@.len(),
        forall|i: int| 0 <= i < old(acc)@.len() ==> final(acc)@[i] == old(acc)@[i],
        forall|i: int|
            old(acc)@.len() <= i < final(acc)@.len() ==> reported(*grid, #[trigger] final(acc)@[i]),
        final(acc)@.len() <= (if old(acc)@.len() + 1 >= max_solutions {
            old(acc)@.len() + 1int
        } else {
            max_solutions as int
        }),
        final(acc)@.len() < max_solutions ==> (forall|a: Seq<int>|
            #[trigger] sol_of(a, *grid) ==> exists|i: int|
                old(acc)@.len() <= i < final(acc)@.len() && fits(a, #[trigger] final(acc)@[i])),
        forall|i1: int, i2: int|
            old(acc)@.len() <= i1 < i2 < final(acc)@.len() ==> final(acc)@[i1] != final(acc)@[i2],
    decreases ns_count(*grid),
{
    let ghost acc0 = acc@;
    match grid.best_field_to_guess() {
        None => {
            acc.push(grid.clone());
            proof {
                assert(acc@[acc0.len() as int] == *grid);
                assert(reported(*grid, *grid));
                assert forall|a: Seq<int>| #[trigger] sol_of(a, *grid) implies exists|i: int|
                    acc0.len() <= i < acc@.len() && fits(a, #[trigger] acc@[i]) by {
                    assert(fits(a, acc@[acc0.len() as int]));
                }
            }
        },
        Some(pos) => {
            let field = grid.get(pos);
            let nums = field.possibilities();
            let mut j: usize = 0;
            while j < nums.len()
                invariant_except_break
                    grid.wf(),
                    pos.wf(),
                    !grid.at(pos).solved(),
                    nums@.len() == grid.at(pos).count(),
                    forall|i: int|
                        0 <= i < nums@.len() ==> (#[trigger] nums@[i]).wf() && grid.at(pos).has(
                            nums@[i].as_int(),
                        ),
                    forall|d: int|
                        grid.at(pos).has(d) ==> exists|i: int|
                            0 <= i < nums@.len() && (#[trigger] nums@[i]).as_int() == d,
                    forall|i1: int, i2: int|
                        0 <= i1 < i2 < nums@.len() ==> nums@[i1].as_int() < nums@[i2].as_int(),
                    j <= nums@.len(),
                    acc0.len() <= acc@.len(),
                    forall|i: int| 0 <= i < acc0.len() ==> acc@[i] == acc0[i],
                    forall|i: int|
                        acc0.len() <= i < acc@.len() ==> reported(*grid, #[trigger] acc@[i]),
                    acc@.len() <= (if acc0.len() + 1 >= max_solutions {
                        acc0.len() + 1int
                    } else {
                        max_solutions as int
                    }),
                    acc@.len() == acc0.len() || acc@.len() < max_solutions,
                    acc@.len() < max_solutions ==> (forall|a: Seq<int>|
                        #[trigger] sol_of(a, *grid) && (exists|jj: int|
                            0 <= jj < j && a[pos.idx()] == (#[trigger] nums@[jj]).as_int())
                            ==> exists|i: int|
                            acc0.len() <= i < acc@.len() && fits(a, #[trigger] acc@[i])),
                    forall|i1: int, i2: int|
                        acc0.len() <= i1 < i2 < acc@.len() ==> acc@[i1] != acc@[i2],
                    forall|i: int|
                        #![trigger acc@[i]]
                        acc0.len() <= i < acc@.len() ==> exists|jj: int|
                            #![trigger nums@[jj]]
                            0 <= jj < j && acc@[i].at(pos).solved_with(nums@[jj].as_int()),
                ensures
                    acc0.len() <= acc@.len(),
                    forall|i: int| 0 <= i < acc0.len() ==> acc@[i] == acc0[i],
                    forall|i: int|
                        acc0.len() <= i < acc@.len() ==> reported(*grid, #[trigger] acc@[i]),
                    acc@.len() <= (if acc0.len() + 1 >= max_solutions {
                        acc0.len() + 1int
                    } else {
                        max_solutions as int
                    }),
                    acc@.len() < max_solutions ==> j == nums@.len(),
                    acc@.len() < max_solutions ==> (forall|a: Seq<int>|
                        #[trigger] sol_of(a, *grid) && (exists|jj: int|
                            0 <= jj < j && a[pos.idx()] == (#[trigger] nums@[jj]).as_int())
                            ==> exists|i: int|
                            acc0.len() <= i < acc@.len() && fits(a, #[trigger] acc@[i])),
                    forall|i1: int, i2: int|
                        acc0.len() <= i1 < i2 < acc@.len() ==> acc@[i1] != acc@[i2],
                decreases nums@.len() - j,
            {
                let num = nums[j];
                let ghost accp = acc@;
                let mut copy = grid.clone();
                let contra = copy.set(pos, num);
                if !contra {
                    proof {
                        assert(copy.at(pos).solved_with(num.as_int()));
                        lemma_ns_lt(*grid, copy, pos);
                    }
                    brute_force(&copy, acc, max_solutions);
                    proof {
                        // what the recursion reported, this call reports too
                        assert forall|i: int|
                            acc0.len() <= i < acc@.len() implies reported(
                            *grid,
                            #[trigger] acc@[i],
                        ) by {
                            if i < accp.len() {
                                assert(acc@[i] == accp[i]);
                            } else {
                                let r = acc@[i];
                                assert(reported(copy, r));
                                assert forall|p: Pos| p.wf() implies (#[trigger] r.at(
                                    p,
                                )).subset_of(grid.at(p)) by {
                                    assert forall|d: int| r.at(p).has(d) implies grid.at(p).has(
                                        d,
                                    ) by {
                                        assert(r.at(p).subset_of(copy.at(p)));
                                        assert(copy.at(p).has(d));
                                        assert(set_mono(*grid, copy, pos, num.as_int()));
                                        if p == pos && d == num.as_int() {
                                            assert(grid.at(pos).has(num.as_int()));
                                        }
                                    }
                                }
                            }
                        }
                        // each grid this branch added carries this branch's digit
                        assert forall|i: int|
                            #![trigger acc@[i]]
                            accp.len() <= i < acc@.len() implies acc@[i].at(pos).solved_with(
                            num.as_int(),
                        ) by {
                            let r = acc@[i];
                            assert(reported(copy, r));
                            assert(r.at(pos).subset_of(copy.at(pos)));
                            assert(r.at(pos).solved());
                            r.at(pos).lemma_count_zero();
                            let d = choose|d: int| r.at(pos).has(d);
                            assert(copy.at(pos).has(d));
                            copy.at(pos).lemma_solved_unique(num.as_int(), d);
                            assert(r.at(pos).has(num.as_int()));
                        }
                        // the collected grids are pairwise distinct
                        assert forall|i1: int, i2: int|
                            acc0.len() <= i1 < i2 < acc@.len() implies acc@[i1] != acc@[i2] by {
                            if i2 < accp.len() {
                                assert(acc@[i1] == accp[i1] && acc@[i2] == accp[i2]);
                            } else if i1 < accp.len() {
                                assert(acc@[i1] == accp[i1]);
                                let jj = choose|jj: int|
                                    #![trigger nums@[jj]]
                                    0 <= jj < j && accp[i1].at(pos).solved_with(
                                        nums@[jj].as_int(),
                                    );
                                assert(nums@[jj].as_int() < nums@[j as int].as_int());
                                assert(acc@[i2].at(pos).solved_with(num.as_int()));
                                if acc@[i1] == acc@[i2] {
                                    acc@[i1].at(pos).lemma_solved_unique(
                                        nums@[jj].as_int(),
                                        num.as_int(),
                                    );
                                }
                            }
                        }
                        // every collected grid carries one of the digits tried so far
                        assert forall|i: int|
                            #![trigger acc@[i]]
                            acc0.len() <= i < acc@.len() implies exists|jj: int|
                            #![trigger nums@[jj]]
                            0 <= jj < j + 1 && acc@[i].at(pos).solved_with(nums@[jj].as_int()) by {
                            if i < accp.len() {
                                assert(acc@[i] == accp[i]);
                                let jj = choose|jj: int|
                                    #![trigger nums@[jj]]
                                    0 <= jj < j && accp[i].at(pos).solved_with(nums@[jj].as_int());
                                assert(acc@[i].at(pos).solved_with(nums@[jj].as_int()));
                            } else {
                                assert(acc@[i].at(pos).solved_with(nums@[j as int].as_int()));
                            }
                        }
                    }
                    if acc.len() >= max_solutions {
                        break ;
                    }
                    proof {
                        // every solution through the digits tried so far is found
                        assert forall|a: Seq<int>|
                            #[trigger] sol_of(a, *grid) && (exists|jj: int|
                                0 <= jj < j + 1 && a[pos.idx()] == (#[trigger] nums@[jj]).as_int())
                                implies exists|i: int|
                            acc0.len() <= i < acc@.len() && fits(a, #[trigger] acc@[i]) by {
                            let jj = choose|jj: int|
                                0 <= jj < j + 1 && a[pos.idx()] == (#[trigger] nums@[jj]).as_int();
                            if a[pos.idx()] == num.as_int() {
                                assert(fits(a, *grid));
                                assert(keeps_solutions(*grid, copy, pos, num.as_int(), true));
                                assert(sol_of(a, copy));
                                let i = choose|i: int|
                                    accp.len() <= i < acc@.len() && fits(a, #[trigger] acc@[i]);
                                assert(acc0.len() <= i < acc@.len() && fits(a, acc@[i]));
                            } else {
                                assert(jj < j);
                                let i = choose|i: int|
                                    acc0.len() <= i < accp.len() && fits(a, #[trigger] accp[i]);
                                assert(acc@[i] == accp[i]);
                                assert(acc0.len() <= i < acc@.len() && fits(a, acc@[i]));
                            }
                        }
                    }
                } else {
                    proof {
                        // no solution places this digit here
                        if acc@.len() < max_solutions {
                            assert forall|a: Seq<int>|
                                #[trigger] sol_of(a, *grid) && (exists|jj: int|
                                    0 <= jj < j + 1 && a[pos.idx()] == (
                                    #[trigger] nums@[jj]).as_int()) implies exists|i: int|
                                acc0.len() <= i < acc@.len() && fits(a, #[trigger] acc@[i]) by {
                                let jj = choose|jj: int|
                                    0 <= jj < j + 1 && a[pos.idx()] == (
                                    #[trigger] nums@[jj]).as_int();
                                if a[pos.idx()] == num.as_int() {
                                    assert(fits(a, *grid));
                                    assert(keeps_solutions(*grid, copy, pos, num.as_int(), false));
                                    assert(false);
                                } else {
                                    assert(jj < j);
                                    let i = choose|i: int|
                                        acc0.len() <= i < acc@.len() && fits(
                                            a,
                                            #[trigger] acc@[i],
                                        );
                                    assert(acc0.len() <= i < acc@.len() && fits(a, acc@[i]));
                                }
                            }
                        }
                        assert forall|i: int|
                            #![trigger acc@[i]]
                            acc0.len() <= i < acc@.len() implies exists|jj: int|
                            #![trigger nums@[jj]]
                            0 <= jj < j + 1 && acc@[i].at(pos).solved_with(nums@[jj].as_int()) by {
                            let jj = choose|jj: int|
                                #![trigger nums@[jj]]
                                0 <= jj < j && acc@[i].at(pos).solved_with(nums@[jj].as_int());
                            assert(acc@[i].at(pos).solved_with(nums@[jj].as_int()));
                        }
                    }
                }
                j = j + 1;
            }
            proof {
                if acc@.len() < max_solutions {
                    assert forall|a: Seq<int>| #[trigger] sol_of(a, *grid) implies exists|i: int|
                        acc0.len() <= i < acc@.len() && fits(a, #[trigger] acc@[i]) by {
                        assert(grid.at(pos).has(a[pos.idx()]));
                        let jj = choose|jj: int|
                            0 <= jj < nums@.len() && (#[trigger] nums@[jj]).as_int()
                                == a[pos.idx()];
                        assert(exists|k: int|
                            0 <= k < j && a[pos.idx()] == (#[trigger] nums@[k]).as_int());
                    }
                }
            }
        },
    }
}

} // verus!
