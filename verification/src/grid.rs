use vstd::prelude::*;

use crate::field::Field;
use crate::number::Number;
use crate::pos::{lemma_scan, pos_at, Pos};

verus! {

/// A sudoku grid, where each cell can contain multiple possibilities.
#[derive(Clone, Copy, Debug, PartialEq, Eq)]
pub struct Grid {
    fields: [[Field; 9]; 9],
}

/// The grid holding exactly the given cells.
pub closed spec fn grid_of(fields: [[Field; 9]; 9]) -> Grid {
    Grid { fields }
}

/// A total assignment of one digit to every cell, indexed row-major as
/// `Pos::idx` counts.
pub open spec fn full_assign(a: Seq<int>) -> bool {
    a.len() == 81 && forall|i: int| 0 <= i < 81 ==> 1 <= #[trigger] a[i] <= 9
}

/// The assignment obeys the sudoku rules: cells that see each other hold
/// different digits.
pub open spec fn valid_assign(a: Seq<int>) -> bool {
    forall|p: Pos, q: Pos| p.wf() && q.wf() && #[trigger] p.sees(q) ==> a[p.idx()] != a[q.idx()]
}

/// Every digit the assignment places is still a candidate of its cell.
pub open spec fn fits(a: Seq<int>, g: Grid) -> bool {
    forall|p: Pos| p.wf() ==> (#[trigger] g.at(p)).has(a[p.idx()])
}

/// The assignment is a solution of the grid: total, rule-abiding, and
/// within the grid's remaining candidates.
pub open spec fn sol_of(a: Seq<int>, g: Grid) -> bool {
    full_assign(a) && valid_assign(a) && fits(a, g)
}

/// Every solved cell has had its digit removed from the unsolved cells
/// it sees.
pub open spec fn propagated(g: Grid) -> bool {
    forall|p: Pos, q: Pos, d: int|
        p.wf() && q.wf() && p.sees(q) && #[trigger] g.at(p).solved_with(d) && !g.at(q).solved()
            ==> !(#[trigger] g.at(q)).has(d)
}

/// The digit of a solved cell.
pub open spec fn cell_digit(f: Field) -> int {
    choose|d: int| f.solved_with(d)
}

/// The assignment a complete grid spells out.
pub open spec fn assign_of(g: Grid) -> Seq<int> {
    Seq::new(81, |i: int| cell_digit(g.at(pos_at(i % 9, i / 9))))
}

impl Grid {
    /// The cell at position `p`.
    pub closed spec fn at(self, p: Pos) -> Field {
        self.fields[p.yi()][p.xi()]
    }

    /// All cells are well-formed.
    pub open spec fn wf(self) -> bool {
        forall|p: Pos| p.wf() ==> (#[trigger] self.at(p)).wf()
    }

    /// No two cells that see each other are solved with the same digit.
    pub open spec fn ok(self) -> bool {
        forall|p: Pos, q: Pos, d: int|
            p.wf() && q.wf() && p.sees(q) && #[trigger] self.at(p).solved_with(d) && #[trigger] self.at(
                q,
            ).solved_with(d) ==> false
    }

    /// Every cell is solved.
    pub open spec fn complete(self) -> bool {
        forall|p: Pos| p.wf() ==> (#[trigger] self.at(p)).solved()
    }

    /// No cell has run out of candidates.
    pub open spec fn no_empty(self) -> bool {
        forall|p: Pos| p.wf() ==> (#[trigger] self.at(p)).count() >= 1
    }

    /// Each cell's candidates are among `other`'s candidates there.
    pub open spec fn refines(self, other: Grid) -> bool {
        forall|p: Pos| p.wf() ==> (#[trigger] self.at(p)).subset_of(other.at(p))
    }

    /// Reads the cell at the given position.
    pub fn get(&self, pos: Pos) -> (r: Field)
        requires
            pos.wf(),
        ensures
            r == self.at(pos),
    {
        self.fields[pos.y() as usize][pos.x() as usize]
    }

    /// Overwrites the cell at the given position.
    pub fn put(&mut self, pos: Pos, f: Field)
        requires
            pos.wf(),
        ensures
            final(self).at(pos) == f,
            forall|q: Pos|
                q.wf() && !(q.xi() == pos.xi() && q.yi() == pos.yi()) ==> final(self).at(q)
                    == old(self).at(q),
    {
        let y = pos.y() as usize;
        let x = pos.x() as usize;
        let mut row = self.fields[y];
        row[x] = f;
        self.fields[y] = row;
    }

    /// Create an unconstrained sudoku grid (no number is known, so all
    /// possibilities are filled out).
    pub fn full() -> (r: Self)
        ensures
            r.wf(),
            r.ok(),
            r.no_empty(),
            propagated(r),
            forall|p: Pos, d: int| p.wf() ==> ((#[trigger] r.at(p).has(d)) <==> 1 <= d <= 9),
            forall|p: Pos| p.wf() ==> !(#[trigger] r.at(p)).solved(),
    {
        let f = Field::full();
        let row = [f, f, f, f, f, f, f, f, f];
        let r = Grid { fields: [row, row, row, row, row, row, row, row, row] };
        proof {
            assert forall|p: Pos| p.wf() implies #[trigger] r.at(p) == f by {}
        }
        r
    }
}

/// During one propagating assignment no candidate appears: the target cell
/// keeps at most its digit, every other cell can only lose candidates.
pub open spec fn set_mono(g0: Grid, g1: Grid, pos: Pos, num: int) -> bool {
    forall|q: Pos, d: int|
        q.wf() && (#[trigger] g1.at(q).has(d)) ==> ((q == pos && d == num) || (q != pos && g0.at(
            q,
        ).has(d)))
}

/// Cells other than the target that were already solved are untouched.
pub open spec fn solved_kept(g0: Grid, g1: Grid, pos: Pos) -> bool {
    forall|q: Pos| q.wf() && q != pos && g0.at(q).solved() ==> #[trigger] g1.at(q) == g0.at(q)
}

/// Cells solved in the first grid are still solved in the second.
pub open spec fn solved_cells_kept(g0: Grid, g1: Grid) -> bool {
    forall|p: Pos| p.wf() && (#[trigger] g0.at(p)).solved() ==> g1.at(p).solved()
}

/// No cell that still had candidates lost them all.
pub open spec fn no_empty_kept(g0: Grid, g1: Grid) -> bool {
    forall|q: Pos| q.wf() && g0.at(q).count() >= 1 ==> (#[trigger] g1.at(q)).count() >= 1
}

/// No cell the given one sees still holds digit `d`.
pub open spec fn no_neighbor_has(g: Grid, q: Pos, d: int) -> bool {
    forall|t: Pos| t.wf() && q.sees(t) ==> !(#[trigger] g.at(t).has(d))
}

/// Every cell this assignment solved (the target, or any cell that was not
/// solved before) has had its digit removed from all cells it sees.
pub open spec fn fresh_ok(g0: Grid, g1: Grid, pos: Pos) -> bool {
    forall|q: Pos, d: int|
        q.wf() && (#[trigger] g1.at(q).solved_with(d)) && (q == pos || !g0.at(q).solved())
            ==> no_neighbor_has(g1, q, d)
}

/// Every solution of the old grid that places `num` on the target survives
/// the assignment: `good` holds (no contradiction was reported) and the
/// solution still fits the new grid.
pub open spec fn keeps_solutions(g0: Grid, g1: Grid, pos: Pos, num: int, good: bool) -> bool {
    forall|a: Seq<int>|
        full_assign(a) && valid_assign(a) && (#[trigger] fits(a, g0)) && a[pos.idx()] == num
            ==> good && fits(a, g1)
}

/// A candidate disappears only for cause: whenever a cell other than the
/// target lost a digit, some cell it sees ends up solved with that digit.
pub open spec fn shrink_justified(g0: Grid, g1: Grid, pos: Pos) -> bool {
    forall|q: Pos, d: int|
        q.wf() && q != pos && g0.at(q).has(d) && !(#[trigger] g1.at(q).has(d)) ==> exists|t: Pos|
            t.wf() && q.sees(t) && (#[trigger] g1.at(t).solved_with(d))
}

/// The grid holds a conflict this assignment ran into: two cells that see
/// each other solved with the same digit, where one of the two is the
/// target itself or a cell this assignment's cascade solved.
pub open spec fn fresh_conflict(g0: Grid, g1: Grid, pos: Pos) -> bool {
    exists|t: Pos, w: Pos, d: int|
        t.wf() && w.wf() && t.sees(w) && (#[trigger] g1.at(t).solved_with(d)) && (
        #[trigger] g1.at(w).solved_with(d)) && (t == pos || !g0.at(t).solved())
}

impl Grid {
    /// Set the cell at the given position to the given number, update the
    /// surrounding cells recursively, and return whether any updated cell
    /// would be left with no possible number.
    ///
    /// Every cell that sees `pos` is visited in turn and `num` is removed
    /// from its possibilities; a visited cell already solved with `num` is a
    /// contradiction and makes the call return `true` immediately, without
    /// visiting the remaining cells (their candidate sets keep whatever the
    /// scan had not yet touched). A visited cell left with exactly one
    /// possibility is set recursively.
    ///
    /// Whether or not a contradiction is reported: the target is pinned to
    /// `num`, already-solved cells are untouched, no cell is emptied, and a
    /// cell loses a candidate only when some cell it sees ends up solved
    /// with that digit. A contradiction leaves the grid inconsistent — a
    /// conflicting pair in which one cell is the target itself or a cell
    /// this very cascade solved — and is never reported while a solution
    /// placing `num` here still exists. Which later cells kept their exact
    /// candidate sets depends on where in the scan the conflict arose, so
    /// the contract bounds the damage (only justified losses) rather than
    /// naming the untouched cells.
    pub fn set(&mut self, pos: Pos, num: Number) -> (contra: bool)
        requires
            old(self).wf(),
            pos.wf(),
            num.wf(),
        ensures
            final(self).wf(),
            set_mono(*old(self), *final(self), pos, num.as_int()),
            keeps_solutions(*old(self), *final(self), pos, num.as_int(), !contra),
            final(self).at(pos).solved_with(num.as_int()),
            solved_kept(*old(self), *final(self), pos),
            solved_cells_kept(*old(self), *final(self)),
            no_empty_kept(*old(self), *final(self)),
            shrink_justified(*old(self), *final(self), pos),
            contra ==> !final(self).ok(),
            contra ==> fresh_conflict(*old(self), *final(self), pos),
            !contra ==> fresh_ok(*old(self), *final(self), pos),
            !contra ==> (old(self).ok() ==> final(self).ok()),
            !contra ==> (propagated(*old(self)) ==> propagated(*final(self))),
        decreases ns_count(*old(self)),
    {
        let ghost g0 = *old(self);
        let visible = pos.get_visible_positions();
        self.put(pos, Field::new(num.as_u8()));
        proof {
            assert forall|q: Pos| q.wf() && q != pos implies #[trigger] self.at(q) == g0.at(q) by {
                Pos::lemma_pos_eq(q, pos);
            }
            assert forall|q: Pos, d: int|
                q.wf() && q != pos && g0.at(q).has(d) && !(#[trigger] self.at(q).has(
                    d,
                )) implies exists|t: Pos|
                t.wf() && q.sees(t) && (#[trigger] self.at(t).solved_with(d)) by {
                assert(self.at(q) == g0.at(q));
            }
        }
        let mut i: usize = 0;
        while i < 20
            invariant
                g0 == *old(self),
                pos.wf(),
                num.wf(),
                g0.wf(),
                i <= 20,
                visible@.len() == 20,
                forall|k: int|
                    0 <= k < 20 ==> (#[trigger] visible@[k]).wf() && pos.sees(visible@[k]),
                forall|q: Pos| q.wf() && pos.sees(q) ==> visible@.contains(q),
                self.wf(),
                set_mono(g0, *self, pos, num.as_int()),
                forall|a: Seq<int>|
                    full_assign(a) && valid_assign(a) && (#[trigger] fits(a, g0)) && a[pos.idx()]
                        == num.as_int() ==> fits(a, *self),
                self.at(pos).solved_with(num.as_int()),
                solved_kept(g0, *self, pos),
                solved_cells_kept(g0, *self),
                no_empty_kept(g0, *self),
                forall|q: Pos, d: int|
                    q.wf() && q != pos && (#[trigger] self.at(q).solved_with(d)) && !g0.at(
                        q,
                    ).solved() ==> no_neighbor_has(*self, q, d),
                forall|k: int| 0 <= k < i ==> !(#[trigger] self.at(visible@[k]).has(num.as_int())),
                shrink_justified(g0, *self, pos),
            decreases 20 - i,
        {
            let vp = visible[i];
            proof {
                assert(vp.wf() && pos.sees(vp));
                Pos::lemma_pos_eq(vp, pos);
                assert(vp != pos);
            }
            let f = self.get(vp);
            match f.solution() {
                Some(sol) => {
                    if sol.as_u8() == num.as_u8() {
                        proof {
                            assert forall|a: Seq<int>|
                                full_assign(a) && valid_assign(a) && (#[trigger] fits(a, g0))
                                    && a[pos.idx()] == num.as_int() implies false by {
                                assert(fits(a, *self));
                                assert(self.at(vp).has(a[vp.idx()]));
                                self.at(vp).lemma_solved_unique(sol.as_int(), a[vp.idx()]);
                                assert(a[pos.idx()] != a[vp.idx()]);
                            }
                            // the conflict pair makes the grid inconsistent
                            assert(self.at(vp).solved_with(num.as_int()));
                            assert(!self.ok()) by {
                                if self.ok() {
                                    assert(self.at(pos).solved_with(num.as_int()) && self.at(
                                        vp,
                                    ).solved_with(num.as_int()) && pos.sees(vp));
                                }
                            }
                            assert(fresh_conflict(g0, *self, pos)) by {
                                assert(pos.sees(vp) && self.at(pos).solved_with(num.as_int())
                                    && self.at(vp).solved_with(num.as_int()));
                            }
                        }
                        return true;
                    }
                    proof {
                        if self.at(vp).has(num.as_int()) {
                            self.at(vp).lemma_solved_unique(sol.as_int(), num.as_int());
                        }
                        assert(!self.at(vp).has(num.as_int()));
                    }
                },
                None => {
                    let ghost gp = *self;
                    let mut f2 = f;
                    f2.remove(num);
                    self.put(vp, f2);
                    let ghost gmid = *self;
                    proof {
                        assert forall|q: Pos| q.wf() && q != vp implies #[trigger] gmid.at(q)
                            == gp.at(q) by {
                            Pos::lemma_pos_eq(q, vp);
                        }
                        assert(gmid.at(vp) == f2);
                        // the grid stays well-formed
                        assert forall|q: Pos| q.wf() implies (#[trigger] gmid.at(q)).wf() by {}
                        // candidates only disappear
                        assert forall|q: Pos, d: int|
                            q.wf() && (#[trigger] gmid.at(q).has(d)) implies ((q == pos && d
                            == num.as_int()) || (q != pos && g0.at(q).has(d))) by {
                            assert(gp.at(q).has(d));
                        }
                        // solutions through `num` at `pos` still fit
                        assert forall|a: Seq<int>|
                            full_assign(a) && valid_assign(a) && (#[trigger] fits(a, g0))
                                && a[pos.idx()] == num.as_int() implies fits(a, gmid) by {
                            assert(fits(a, gp));
                            assert(a[pos.idx()] != a[vp.idx()]);
                            assert forall|q: Pos| q.wf() implies (#[trigger] gmid.at(q)).has(
                                a[q.idx()],
                            ) by {
                                assert(gp.at(q).has(a[q.idx()]));
                            }
                        }
                        // previously solved cells are untouched: `vp` was unsolved
                        assert(!f.solved());
                        assert(!g0.at(vp).solved());
                        assert(solved_kept(g0, gmid, pos));
                        assert(solved_cells_kept(g0, gmid));
                        // no cell has been emptied
                        assert forall|q: Pos|
                            q.wf() && g0.at(q).count() >= 1 implies (#[trigger] gmid.at(
                            q,
                        )).count() >= 1 by {
                            if q == vp {
                                assert(gp.at(vp).count() >= 1);
                                assert(f.count() != 1);
                            }
                        }
                        // losses so far are justified by a solved neighbour
                        assert forall|q: Pos, d: int|
                            q.wf() && q != pos && g0.at(q).has(d) && !(#[trigger] gmid.at(q).has(
                                d,
                            )) implies exists|t: Pos|
                            t.wf() && q.sees(t) && (#[trigger] gmid.at(t).solved_with(d)) by {
                            if gp.at(q).has(d) {
                                // lost by this removal: the target is the cause
                                lemma_sees_sym(pos, vp);
                                assert(q == vp && d == num.as_int());
                                assert(gmid.at(pos).solved_with(d));
                                assert(vp.sees(pos));
                            } else {
                                let t = choose|t: Pos|
                                    t.wf() && q.sees(t) && (#[trigger] gp.at(t).solved_with(d));
                                assert(t != vp);
                                assert(gmid.at(t).solved_with(d));
                            }
                        }
                    }
                    match f2.solution() {
                        Some(n2) => {
                            proof {
                                lemma_ns_lt(g0, gmid, vp);
                            }
                            let inner = self.set(vp, n2);
                            proof {
                                let cur = *self;
                                // candidates only disappear, composed with the recursion
                                assert forall|q: Pos, d: int|
                                    q.wf() && (#[trigger] cur.at(q).has(d)) implies ((q == pos && d
                                    == num.as_int()) || (q != pos && g0.at(q).has(d))) by {
                                    if q == vp {
                                        f2.lemma_solved_unique(n2.as_int(), d);
                                        assert(gmid.at(q).has(d));
                                    } else {
                                        assert(gmid.at(q).has(d));
                                        if q == pos {
                                            gmid.at(pos).lemma_solved_unique(num.as_int(), d);
                                        }
                                    }
                                }
                                // the target cell still holds its digit
                                assert(cur.at(pos) == gmid.at(pos));
                                // previously solved cells are untouched
                                assert forall|q: Pos|
                                    q.wf() && q != pos && g0.at(q).solved() implies #[trigger] cur.at(
                                    q,
                                ) == g0.at(q) by {
                                    assert(q != vp);
                                    assert(gmid.at(q) == g0.at(q));
                                }
                                assert(solved_cells_kept(g0, cur));
                                assert(no_empty_kept(g0, cur));
                                // losses are still justified by a solved neighbour
                                assert forall|q: Pos, d: int|
                                    q.wf() && q != pos && g0.at(q).has(d) && !(
                                #[trigger] cur.at(q).has(d)) implies exists|t: Pos|
                                    t.wf() && q.sees(t) && (#[trigger] cur.at(t).solved_with(
                                        d,
                                    )) by {
                                    if gmid.at(q).has(d) {
                                        // lost during the recursion
                                        if q == vp {
                                            f2.lemma_solved_unique(n2.as_int(), d);
                                            assert(cur.at(vp).solved_with(n2.as_int()));
                                            assert(cur.at(vp).has(d));
                                        } else {
                                            assert(shrink_justified(gmid, cur, vp));
                                            let t = choose|t: Pos|
                                                t.wf() && q.sees(t) && (
                                                #[trigger] cur.at(t).solved_with(d));
                                            assert(cur.at(t).solved_with(d));
                                        }
                                    } else {
                                        // lost before the recursion: the witness survives
                                        let t = choose|t: Pos|
                                            t.wf() && q.sees(t) && (#[trigger] gmid.at(
                                                t,
                                            ).solved_with(d));
                                        if t == vp {
                                            f2.lemma_solved_unique(n2.as_int(), d);
                                            assert(cur.at(vp).solved_with(d));
                                        } else {
                                            assert(cur.at(t) == gmid.at(t));
                                        }
                                    }
                                }
                            }
                            if inner {
                                proof {
                                    assert forall|a: Seq<int>|
                                        full_assign(a) && valid_assign(a) && (#[trigger] fits(
                                            a,
                                            g0,
                                        )) && a[pos.idx()] == num.as_int() implies false by {
                                        assert(fits(a, gmid));
                                        assert(gmid.at(vp).has(a[vp.idx()]));
                                        f2.lemma_solved_unique(n2.as_int(), a[vp.idx()]);
                                        assert(a[vp.idx()] == n2.as_int());
                                        assert(keeps_solutions(
                                            gmid,
                                            *self,
                                            vp,
                                            n2.as_int(),
                                            false,
                                        ));
                                    }
                                    // the deeper conflict involves a cell this call solved
                                    assert(fresh_conflict(g0, *self, pos)) by {
                                        assert(fresh_conflict(gmid, *self, vp));
                                        let (t, w, d) = choose|t: Pos, w: Pos, d: int|
                                            t.wf() && w.wf() && t.sees(w) && (#[trigger] self.at(
                                                t,
                                            ).solved_with(d)) && (#[trigger] self.at(
                                                w,
                                            ).solved_with(d)) && (t == vp || !gmid.at(
                                                t,
                                            ).solved());
                                        if t == vp {
                                            assert(!g0.at(vp).solved());
                                        } else {
                                            if g0.at(t).solved() {
                                                assert(gp.at(t).solved());
                                                Pos::lemma_pos_eq(t, vp);
                                                assert(gmid.at(t) == gp.at(t));
                                            }
                                            assert(!g0.at(t).solved());
                                        }
                                        assert(self.at(t).solved_with(d) && self.at(
                                            w,
                                        ).solved_with(d));
                                    }
                                }
                                return true;
                            }
                            proof {
                                let cur = *self;
                                // solutions still fit
                                assert forall|a: Seq<int>|
                                    full_assign(a) && valid_assign(a) && (#[trigger] fits(a, g0))
                                        && a[pos.idx()] == num.as_int() implies fits(a, cur) by {
                                    assert(fits(a, gmid));
                                    assert(gmid.at(vp).has(a[vp.idx()]));
                                    f2.lemma_solved_unique(n2.as_int(), a[vp.idx()]);
                                    assert(keeps_solutions(gmid, cur, vp, n2.as_int(), true));
                                }
                                // freshly solved cells have clean neighbourhoods
                                assert forall|q: Pos, d: int|
                                    q.wf() && q != pos && (#[trigger] cur.at(q).solved_with(d))
                                        && !g0.at(q).solved() implies no_neighbor_has(
                                    cur,
                                    q,
                                    d,
                                ) by {
                                    if q == vp {
                                        cur.at(vp).lemma_solved_unique(n2.as_int(), d);
                                        assert(no_neighbor_has(cur, vp, n2.as_int()));
                                    } else if gmid.at(q).solved() {
                                        assert(cur.at(q) == gmid.at(q));
                                        assert(gmid.at(q) == gp.at(q));
                                        assert(no_neighbor_has(gp, q, d));
                                        assert forall|t: Pos| t.wf() && q.sees(t) implies !(
                                        #[trigger] cur.at(t).has(d)) by {
                                            if cur.at(t).has(d) {
                                                if t == vp {
                                                    cur.at(vp).lemma_solved_unique(n2.as_int(), d);
                                                    assert(d == n2.as_int());
                                                    assert(vp.sees(q));
                                                    assert(!cur.at(q).has(n2.as_int()));
                                                } else {
                                                    assert(gmid.at(t).has(d));
                                                    assert(gp.at(t).has(d));
                                                }
                                            }
                                        }
                                    } else {
                                        assert(no_neighbor_has(cur, q, d));
                                    }
                                }
                                // processed cells stay free of `num`
                                assert forall|k: int| 0 <= k < i + 1 implies !(#[trigger] cur.at(
                                    visible@[k],
                                ).has(num.as_int())) by {
                                    let vk = visible@[k];
                                    if cur.at(vk).has(num.as_int()) {
                                        if vk == vp {
                                            cur.at(vp).lemma_solved_unique(
                                                n2.as_int(),
                                                num.as_int(),
                                            );
                                            assert(!f2.has(num.as_int()));
                                        } else {
                                            assert(gmid.at(vk).has(num.as_int()));
                                            assert(gp.at(vk).has(num.as_int()));
                                        }
                                    }
                                }
                            }
                        },
                        None => {
                            proof {
                                assert(!f2.solved());
                                // freshly solved cells have clean neighbourhoods
                                assert forall|q: Pos, d: int|
                                    q.wf() && q != pos && (#[trigger] gmid.at(q).solved_with(d))
                                        && !g0.at(q).solved() implies no_neighbor_has(
                                    gmid,
                                    q,
                                    d,
                                ) by {
                                    assert(q != vp);
                                    assert(gmid.at(q) == gp.at(q));
                                    assert(no_neighbor_has(gp, q, d));
                                    assert forall|t: Pos| t.wf() && q.sees(t) implies !(
                                    #[trigger] gmid.at(t).has(d)) by {
                                        if gmid.at(t).has(d) {
                                            assert(gp.at(t).has(d));
                                        }
                                    }
                                }
                                // processed cells stay free of `num`
                                assert forall|k: int| 0 <= k < i + 1 implies !(#[trigger] gmid.at(
                                    visible@[k],
                                ).has(num.as_int())) by {
                                    let vk = visible@[k];
                                    if gmid.at(vk).has(num.as_int()) {
                                        assert(gp.at(vk).has(num.as_int()));
                                    }
                                }
                            }
                        },
                    }
                },
            }
            i = i + 1;
        }
        proof {
            let cur = *self;
            // the target's whole neighbourhood is free of `num`
            assert forall|t: Pos| t.wf() && pos.sees(t) implies !(#[trigger] cur.at(t).has(
                num.as_int(),
            )) by {
                assert(visible@.contains(t));
                let k = choose|k: int| 0 <= k < visible@.len() && visible@[k] == t;
                assert(!cur.at(visible@[k]).has(num.as_int()));
            }
            // all freshly solved cells, the target included, are propagated
            assert forall|q: Pos, d: int|
                q.wf() && (#[trigger] cur.at(q).solved_with(d)) && (q == pos || !g0.at(
                    q,
                ).solved()) implies no_neighbor_has(cur, q, d) by {
                if q == pos {
                    cur.at(pos).lemma_solved_unique(num.as_int(), d);
                }
            }
            // consistency is preserved
            if g0.ok() {
                assert forall|p: Pos, q: Pos, d: int|
                    p.wf() && q.wf() && p.sees(q) && (#[trigger] cur.at(p).solved_with(d)) && (
                #[trigger] cur.at(q).solved_with(d)) implies false by {
                    lemma_sees_sym(p, q);
                    if p == pos || !g0.at(p).solved() {
                        assert(no_neighbor_has(cur, p, d));
                        assert(!cur.at(q).has(d));
                    } else if q == pos || !g0.at(q).solved() {
                        assert(no_neighbor_has(cur, q, d));
                        assert(!cur.at(p).has(d));
                    } else {
                        assert(cur.at(p) == g0.at(p));
                        assert(cur.at(q) == g0.at(q));
                    }
                }
            }
            // the propagation invariant is preserved
            if propagated(g0) {
                assert forall|p: Pos, q: Pos, d: int|
                    p.wf() && q.wf() && p.sees(q) && (#[trigger] cur.at(p).solved_with(d)) && !cur.at(
                        q,
                    ).solved() implies !(#[trigger] cur.at(q)).has(d) by {
                    if p == pos || !g0.at(p).solved() {
                        assert(no_neighbor_has(cur, p, d));
                    } else {
                        assert(cur.at(p) == g0.at(p));
                        assert(!g0.at(q).solved());
                        assert(!g0.at(q).has(d));
                        if cur.at(q).has(d) {
                            assert(q == pos && d == num.as_int());
                        }
                    }
                }
            }
        }
        false
    }
}

/// Seeing one another is mutual.
pub proof fn lemma_sees_sym(p: Pos, q: Pos)
    ensures
        p.sees(q) == q.sees(p),
{
}

impl Grid {
    /// Create a sudoku grid from the given cells, with all possibilities
    /// filled out: every cell that arrives solved is assigned, so its
    /// digit is removed from the cells it sees, cascading as needed.
    ///
    /// A contradiction met while propagating is ignored, but it leaves the
    /// grid inconsistent, so a consistent result means every assignment
    /// propagated in full.
    pub fn new(fields: [[Field; 9]; 9]) -> (r: Self)
        requires
            forall|p: Pos| p.wf() ==> (#[trigger] grid_of(fields).at(p)).wf(),
        ensures
            r.wf(),
            r.refines(grid_of(fields)),
            forall|a: Seq<int>| sol_of(a, grid_of(fields)) ==> #[trigger] fits(a, r),
            forall|p: Pos, d: int|
                p.wf() && (#[trigger] grid_of(fields).at(p).solved_with(d)) ==> r.at(
                    p,
                ).solved_with(d),
            forall|q: Pos, d: int|
                q.wf() && grid_of(fields).at(q).has(d) && !(#[trigger] r.at(q).has(d))
                    ==> exists|t: Pos| t.wf() && q.sees(t) && (#[trigger] r.at(t).solved_with(d)),
            (exists|a: Seq<int>| sol_of(a, grid_of(fields))) ==> r.ok(),
            r.ok() ==> propagated(r),
            grid_of(fields).complete() && grid_of(fields).ok() ==> forall|p: Pos|
                p.wf() ==> r.at(p) == grid_of(fields).at(p),
    {
        let ghost ginit = grid_of(fields);
        let mut grid = Grid { fields };
        let ghost mut clean: bool = true;
        let all = Pos::iterator();
        let mut k: usize = 0;
        while k < 81
            invariant
                ginit == grid_of(fields),
                all@.len() == 81,
                forall|j: int|
                    0 <= j < 81 ==> (#[trigger] all@[j]).wf() && all@[j].xi() == j / 9
                        && all@[j].yi() == j % 9,
                k <= 81,
                grid.wf(),
                grid.refines(ginit),
                forall|a: Seq<int>| sol_of(a, ginit) ==> #[trigger] fits(a, grid),
                (exists|a: Seq<int>| sol_of(a, ginit)) ==> clean,
                forall|p: Pos, d: int|
                    p.wf() && (#[trigger] ginit.at(p).solved_with(d)) ==> grid.at(p).solved_with(
                        d,
                    ),
                forall|q: Pos, d: int|
                    q.wf() && ginit.at(q).has(d) && !(#[trigger] grid.at(q).has(d)) ==> exists|
                        t: Pos,
                    | t.wf() && q.sees(t) && (#[trigger] grid.at(t).solved_with(d)),
                clean ==> (forall|p: Pos, q: Pos, d: int|
                    p.wf() && q.wf() && p.sees(q) && (#[trigger] grid.at(p).solved_with(d))
                        && !grid.at(q).solved() && (p.scan() < k || !ginit.at(p).solved())
                        ==> !(#[trigger] grid.at(q).has(d))),
                clean ==> (forall|p: Pos, q: Pos, d: int|
                    p.wf() && q.wf() && p.sees(q) && (#[trigger] grid.at(p).solved_with(d)) && (
                    #[trigger] grid.at(q).solved_with(d)) && (p.scan() < k || !ginit.at(
                        p,
                    ).solved()) ==> false),
                !clean ==> !grid.ok(),
                ginit.complete() && ginit.ok() ==> forall|p: Pos|
                    p.wf() ==> grid.at(p) == ginit.at(p),
            decreases 81 - k,
        {
            let p = all[k];
            proof {
                lemma_scan(p);
                assert(p.scan() == k);
            }
            let ghost gpre = grid;
            let ghost was_clean = clean;
            let f = grid.get(p);
            match f.solution() {
                Some(sol) => {
                    let c = grid.set(p, sol);
                    proof {
                        if c {
                            clean = false;
                        }
                        // candidates only disappear
                        assert forall|q: Pos| q.wf() implies (#[trigger] grid.at(q)).subset_of(
                            ginit.at(q),
                        ) by {
                            assert forall|d: int| grid.at(q).has(d) implies ginit.at(q).has(d) by {
                                assert(set_mono(gpre, grid, p, sol.as_int()));
                                if q == p && d == sol.as_int() {
                                    assert(gpre.at(p).has(sol.as_int()));
                                } else {
                                    assert(gpre.at(q).has(d));
                                }
                            }
                        }
                        // solutions still fit, and no contradiction can have fired
                        assert forall|a: Seq<int>| sol_of(a, ginit) implies #[trigger] fits(
                            a,
                            grid,
                        ) && a[p.idx()] == sol.as_int() by {
                            assert(fits(a, gpre));
                            assert(gpre.at(p).has(a[p.idx()]));
                            gpre.at(p).lemma_solved_unique(sol.as_int(), a[p.idx()]);
                        }
                        if exists|a: Seq<int>| sol_of(a, ginit) {
                            let a = choose|a: Seq<int>| sol_of(a, ginit);
                            assert(fits(a, grid));
                            assert(fits(a, gpre) && a[p.idx()] == sol.as_int());
                            assert(!c);
                        }
                        // digits placed from the start stay in place
                        assert forall|p2: Pos, d: int|
                            p2.wf() && (#[trigger] ginit.at(p2).solved_with(d)) implies grid.at(
                            p2,
                        ).solved_with(d) by {
                            assert(gpre.at(p2).solved_with(d));
                            if p2 == p {
                                gpre.at(p).lemma_solved_unique(d, sol.as_int());
                            } else {
                                assert(grid.at(p2) == gpre.at(p2));
                            }
                        }
                        // losses are justified by a solved neighbour
                        assert forall|q: Pos, d: int|
                            q.wf() && ginit.at(q).has(d) && !(#[trigger] grid.at(q).has(
                                d,
                            )) implies exists|t: Pos|
                            t.wf() && q.sees(t) && (#[trigger] grid.at(t).solved_with(d)) by {
                            if gpre.at(q).has(d) {
                                // lost this step
                                if q == p {
                                    gpre.at(p).lemma_solved_unique(d, sol.as_int());
                                    assert(grid.at(p).solved_with(sol.as_int()));
                                    assert(grid.at(p).has(d));
                                } else {
                                    assert(shrink_justified(gpre, grid, p));
                                    let t = choose|t: Pos|
                                        t.wf() && q.sees(t) && (#[trigger] grid.at(t).solved_with(
                                            d,
                                        ));
                                    assert(grid.at(t).solved_with(d));
                                }
                            } else {
                                // lost earlier: the witness survives this step
                                let t = choose|t: Pos|
                                    t.wf() && q.sees(t) && (#[trigger] gpre.at(t).solved_with(d));
                                if t == p {
                                    gpre.at(p).lemma_solved_unique(d, sol.as_int());
                                    assert(grid.at(p).solved_with(d));
                                } else {
                                    assert(grid.at(t) == gpre.at(t));
                                }
                            }
                        }
                        if clean {
                            assert(!c && was_clean);
                            // the processed prefix stays propagated
                            assert forall|p2: Pos, q: Pos, d: int|
                                p2.wf() && q.wf() && p2.sees(q) && (#[trigger] grid.at(
                                    p2,
                                ).solved_with(d)) && !grid.at(q).solved() && (p2.scan() < k + 1
                                || !ginit.at(p2).solved()) implies !(#[trigger] grid.at(q).has(
                                d,
                            )) by {
                                Pos::lemma_pos_eq(p2, p);
                                Pos::lemma_pos_eq(q, p);
                                if p2 == p || !gpre.at(p2).solved() {
                                    assert(no_neighbor_has(grid, p2, d));
                                } else {
                                    // p2 was already solved before this step
                                    assert(grid.at(p2) == gpre.at(p2));
                                    assert(p2.scan() != p.scan() || p2 == p);
                                    if !gpre.at(q).solved() {
                                        assert(!gpre.at(q).has(d));
                                        if grid.at(q).has(d) {
                                            assert(q == p && d == sol.as_int());
                                            assert(grid.at(p).solved());
                                        }
                                    } else {
                                        assert(grid.at(q) == gpre.at(q));
                                        assert(grid.at(q).solved());
                                    }
                                }
                            }
                            // no conflicting pair involves a processed or fresh cell
                            assert forall|p2: Pos, q: Pos, d: int|
                                p2.wf() && q.wf() && p2.sees(q) && (#[trigger] grid.at(
                                    p2,
                                ).solved_with(d)) && (#[trigger] grid.at(q).solved_with(d)) && (
                            p2.scan() < k + 1 || !ginit.at(p2).solved()) implies false by {
                                lemma_sees_sym(p2, q);
                                if p2 == p || !gpre.at(p2).solved() {
                                    assert(no_neighbor_has(grid, p2, d));
                                    assert(!grid.at(q).has(d));
                                } else if q == p || !gpre.at(q).solved() {
                                    assert(no_neighbor_has(grid, q, d));
                                    assert(!grid.at(p2).has(d));
                                } else {
                                    // both were solved before this step
                                    assert(grid.at(p2) == gpre.at(p2));
                                    assert(grid.at(q) == gpre.at(q));
                                    if p2.scan() < k + 1 && ginit.at(p2).solved() {
                                        lemma_covered(all@, p2);
                                        assert(p2.scan() < k);
                                    }
                                }
                            }
                        } else {
                            // a contradiction leaves the grid inconsistent for good
                            if !was_clean {
                                assert(!gpre.ok());
                                let (pp, qq, dd) = choose|pp: Pos, qq: Pos, dd: int|
                                    pp.wf() && qq.wf() && pp.sees(qq) && (#[trigger] gpre.at(
                                        pp,
                                    ).solved_with(dd)) && (#[trigger] gpre.at(qq).solved_with(
                                        dd,
                                    ));
                                assert(grid.at(pp).solved_with(dd)) by {
                                    if pp == p {
                                        gpre.at(p).lemma_solved_unique(dd, sol.as_int());
                                    } else {
                                        assert(grid.at(pp) == gpre.at(pp));
                                    }
                                }
                                assert(grid.at(qq).solved_with(dd)) by {
                                    if qq == p {
                                        gpre.at(p).lemma_solved_unique(dd, sol.as_int());
                                    } else {
                                        assert(grid.at(qq) == gpre.at(qq));
                                    }
                                }
                                assert(!grid.ok());
                            } else {
                                assert(c);
                                assert(!grid.ok());
                            }
                        }
                        if ginit.complete() && ginit.ok() {
                            lemma_assign_of(ginit);
                            assert(sol_of(assign_of(ginit), ginit));
                            assert forall|q: Pos| q.wf() implies grid.at(q) == ginit.at(q) by {
                                Pos::lemma_pos_eq(q, p);
                                if q == p {
                                    assert(grid.at(p).solved_with(sol.as_int()));
                                    assert(gpre.at(p) == ginit.at(p));
                                    assert(ginit.at(p).solved_with(sol.as_int()));
                                    grid.at(p).lemma_solved_eq(ginit.at(p), sol.as_int());
                                } else {
                                    assert(grid.at(q) == gpre.at(q));
                                }
                            }
                        }
                    }
                },
                None => {},
            }
            k = k + 1;
        }
        proof {
            if grid.ok() {
                assert(clean);
                assert forall|p: Pos, q: Pos, d: int|
                    p.wf() && q.wf() && p.sees(q) && (#[trigger] grid.at(p).solved_with(d))
                        && !grid.at(q).solved() implies !(#[trigger] grid.at(q)).has(d) by {
                    lemma_scan(p);
                }
            }
            if exists|a: Seq<int>| sol_of(a, ginit) {
                assert(clean);
                assert forall|p: Pos, q: Pos, d: int|
                    p.wf() && q.wf() && p.sees(q) && (#[trigger] grid.at(p).solved_with(d)) && (
                #[trigger] grid.at(q).solved_with(d)) implies false by {
                    lemma_scan(p);
                }
            }
        }
        grid
    }

    /// Returns the position of the cell where we should guess to
    /// brute-force the sudoku: scanning in the canonical order, the first
    /// unsolved cell with at most 2 possibilities if one exists, and
    /// otherwise the first unsolved cell with the fewest possibilities.
    ///
    /// This function returns `None` exactly when every cell is solved,
    /// meaning that the sudoku is completely solved.
    pub fn best_field_to_guess(&self) -> (r: Option<Pos>)
        requires
            self.wf(),
        ensures
            match r {
                None => self.complete(),
                Some(p) => {
                    &&& p.wf() && !self.at(p).solved()
                    &&& self.at(p).count() <= 2 ==> forall|q: Pos|
                        q.wf() && q.scan() < p.scan() ==> (#[trigger] self.at(q)).solved()
                            || self.at(q).count() > 2
                    &&& self.at(p).count() > 2 ==> (forall|q: Pos|
                        q.wf() && !(#[trigger] self.at(q)).solved() ==> self.at(q).count()
                            >= self.at(p).count())
                    &&& self.at(p).count() > 2 ==> (forall|q: Pos|
                        q.wf() && q.scan() < p.scan() && !(#[trigger] self.at(q)).solved()
                            ==> self.at(q).count() > self.at(p).count())
                },
            },
    {
        let all = Pos::iterator();
        let mut lowest_len: u32 = 10;
        let mut lowest_pos: Option<Pos> = None;
        let mut k: usize = 0;
        while k < 81
            invariant
                self.wf(),
                all@.len() == 81,
                forall|j: int|
                    0 <= j < 81 ==> (#[trigger] all@[j]).wf() && all@[j].xi() == j / 9
                        && all@[j].yi() == j % 9,
                k <= 81,
                match lowest_pos {
                    None => lowest_len == 10 && forall|q: Pos|
                        q.wf() && q.scan() < k ==> (#[trigger] self.at(q)).solved(),
                    Some(p) => {
                        &&& p.wf() && !self.at(p).solved() && self.at(p).count() == lowest_len
                        &&& p.scan() < k
                        &&& 3 <= lowest_len <= 9
                        &&& forall|q: Pos|
                            q.wf() && q.scan() < k && !(#[trigger] self.at(q)).solved() ==> self.at(
                                q,
                            ).count() >= lowest_len
                        &&& forall|q: Pos|
                            q.wf() && q.scan() < p.scan() && !(#[trigger] self.at(q)).solved()
                                ==> self.at(q).count() > lowest_len
                    },
                },
            decreases 81 - k,
        {
            let p = all[k];
            proof {
                lemma_scan(p);
                assert(p.scan() == k);
                self.at(p).lemma_count_below_bound(10);
            }
            let f = self.get(p);
            if f.solution().is_none() {
                let len = f.len();
                if len < lowest_len {
                    lowest_len = len;
                    lowest_pos = Some(p);
                    if len <= 2 {
                        proof {
                            assert forall|q: Pos| q.wf() && q.scan() < p.scan() implies (
                            #[trigger] self.at(q)).solved() || self.at(q).count() > 2 by {
                                lemma_covered(all@, q);
                            }
                        }
                        return lowest_pos;
                    }
                }
            }
            proof {
                assert forall|q: Pos| q.wf() && q.scan() < k + 1 implies q.scan() < k || q == p by {
                    lemma_covered(all@, q);
                }
            }
            k = k + 1;
        }
        proof {
            match lowest_pos {
                None => {
                    assert forall|q: Pos| q.wf() implies (#[trigger] self.at(q)).solved() by {
                        lemma_scan(q);
                    }
                },
                Some(p) => {
                    assert forall|q: Pos|
                        q.wf() && !(#[trigger] self.at(q)).solved() implies self.at(q).count()
                        >= lowest_len by {
                        lemma_scan(q);
                    }
                },
            }
        }
        lowest_pos
    }

    /// Returns, in the `acc` argument, all positions whose cells still
    /// have two or more possible numbers, in the canonical enumeration
    /// order.
    pub fn all_unsolved_fields(&self, acc: &mut Vec<Pos>)
        requires
            self.wf(),
        ensures
            final(acc)@.len() <= 81,
            forall|i: int|
                0 <= i < final(acc)@.len() ==> (#[trigger] final(acc)@[i]).wf() && self.at(
                    final(acc)@[i],
                ).count() >= 2,
            forall|i: int, j: int|
                0 <= i < j < final(acc)@.len() ==> final(acc)@[i].scan() < final(acc)@[j].scan(),
            forall|q: Pos| q.wf() && (#[trigger] self.at(q)).count() >= 2 ==> final(acc)@.contains(
                q,
            ),
    {
        acc.clear();
        let all = Pos::iterator();
        let mut k: usize = 0;
        while k < 81
            invariant
                self.wf(),
                all@.len() == 81,
                forall|j: int|
                    0 <= j < 81 ==> (#[trigger] all@[j]).wf() && all@[j].xi() == j / 9
                        && all@[j].yi() == j % 9,
                k <= 81,
                acc@.len() <= k,
                forall|i: int|
                    0 <= i < acc@.len() ==> (#[trigger] acc@[i]).wf() && self.at(
                        acc@[i],
                    ).count() >= 2 && acc@[i].scan() < k,
                forall|i: int, j: int| 0 <= i < j < acc@.len() ==> acc@[i].scan() < acc@[j].scan(),
                forall|q: Pos|
                    q.wf() && (#[trigger] self.at(q)).count() >= 2 && q.scan() < k
                        ==> acc@.contains(q),
            decreases 81 - k,
        {
            let p = all[k];
            proof {
                lemma_scan(p);
                assert(p.scan() == k);
            }
            let ghost a0 = acc@;
            if self.get(p).len() >= 2 {
                acc.push(p);
            }
            proof {
                assert forall|q: Pos|
                    q.wf() && (#[trigger] self.at(q)).count() >= 2 && q.scan() < k
                        + 1 implies acc@.contains(q) by {
                    lemma_covered(all@, q);
                    if q.scan() < k {
                        let i = choose|i: int| 0 <= i < a0.len() && a0[i] == q;
                        assert(acc@[i] == q);
                    } else {
                        assert(q == p);
                        assert(acc@[acc@.len() - 1] == q);
                    }
                }
            }
            k = k + 1;
        }
    }
}

/// In the canonical enumeration, a well-formed position stands at the rank
/// `scan` gives it.
proof fn lemma_covered(all: Seq<Pos>, q: Pos)
    requires
        all.len() == 81,
        forall|j: int|
            0 <= j < 81 ==> (#[trigger] all[j]).wf() && all[j].xi() == j / 9 && all[j].yi() == j
                % 9,
        q.wf(),
    ensures
        all[q.scan()] == q,
{
    lemma_scan(q);
    Pos::lemma_pos_eq(all[q.scan()], q);
}

/// How many cells among the first `k` (row-major) are not yet solved.
pub open spec fn ns_count_below(g: Grid, k: int) -> nat
    decreases k,
{
    if k <= 0 {
        0
    } else {
        ns_count_below(g, k - 1) + (if !g.at(pos_at((k - 1) % 9, (k - 1) / 9)).solved() {
            1nat
        } else {
            0nat
        })
    }
}

/// How many cells of the grid are not yet solved.
pub open spec fn ns_count(g: Grid) -> nat {
    ns_count_below(g, 81)
}

/// If additionally one cell went from unsolved to solved, the count of
/// unsolved cells strictly falls.
pub proof fn lemma_ns_lt(g0: Grid, g1: Grid, p0: Pos)
    requires
        forall|p: Pos| p.wf() && (#[trigger] g0.at(p)).solved() ==> g1.at(p).solved(),
        p0.wf(),
        !g0.at(p0).solved(),
        g1.at(p0).solved(),
    ensures
        ns_count(g1) < ns_count(g0),
{
    lemma_ns_lt_below(g0, g1, p0, 81);
}

proof fn lemma_ns_lt_below(g0: Grid, g1: Grid, p0: Pos, k: int)
    requires
        forall|p: Pos| p.wf() && (#[trigger] g0.at(p)).solved() ==> g1.at(p).solved(),
        p0.wf(),
        !g0.at(p0).solved(),
        g1.at(p0).solved(),
        k <= 81,
    ensures
        ns_count_below(g1, k) <= ns_count_below(g0, k) - (if p0.idx() < k {
            1int
        } else {
            0int
        }),
    decreases k,
{
    if k > 0 {
        lemma_ns_lt_below(g0, g1, p0, k - 1);
        crate::pos::lemma_pos_at((k - 1) % 9, (k - 1) / 9);
        if p0.idx() == k - 1 {
            assert(pos_at((k - 1) % 9, (k - 1) / 9) == p0) by {
                assert((p0.yi() * 9 + p0.xi()) % 9 == p0.xi() && (p0.yi() * 9 + p0.xi()) / 9
                    == p0.yi()) by (nonlinear_arith)
                    requires
                        0 <= p0.xi() <= 8,
                        0 <= p0.yi() <= 8,
                ;
                Pos::lemma_pos_eq(pos_at((k - 1) % 9, (k - 1) / 9), p0);
            }
        }
    }
}

/// A complete grid spells out a full assignment that fits it; if the grid
/// also obeys the rules, that assignment is valid, and every full
/// assignment fitting the grid is that one.
pub proof fn lemma_assign_of(g: Grid)
    requires
        g.complete(),
    ensures
        full_assign(assign_of(g)),
        fits(assign_of(g), g),
        g.ok() ==> valid_assign(assign_of(g)),
        forall|a: Seq<int>| full_assign(a) && fits(a, g) ==> a =~= assign_of(g),
{
    let s = assign_of(g);
    assert forall|p: Pos| p.wf() implies s[p.idx()] == cell_digit(g.at(p)) && (#[trigger] g.at(
        p,
    )).solved_with(cell_digit(g.at(p))) by {
        lemma_at_idx(g, p);
        let f = g.at(p);
        f.lemma_count_zero();
        let e = choose|d: int| f.has(d);
        assert(f.solved_with(e));
        assert(f.solved_with(cell_digit(f)));
    }
    assert forall|i: int| 0 <= i < 81 implies 1 <= #[trigger] s[i] <= 9 by {
        crate::pos::lemma_pos_at(i % 9, i / 9);
        let p = pos_at(i % 9, i / 9);
        assert(p.idx() == i);
        assert(s[p.idx()] == cell_digit(g.at(p)));
        assert(g.at(p).has(cell_digit(g.at(p))));
    }
    if g.ok() {
        assert forall|p: Pos, q: Pos| p.wf() && q.wf() && #[trigger] p.sees(q) implies s[p.idx()]
            != s[q.idx()] by {
            if s[p.idx()] == s[q.idx()] {
                assert(g.at(p).solved_with(cell_digit(g.at(p))));
                assert(g.at(q).solved_with(cell_digit(g.at(q))));
            }
        }
    }
    assert forall|a: Seq<int>| full_assign(a) && fits(a, g) implies a =~= assign_of(g) by {
        assert forall|i: int| 0 <= i < 81 implies a[i] == s[i] by {
            crate::pos::lemma_pos_at(i % 9, i / 9);
            let p = pos_at(i % 9, i / 9);
            assert(p.idx() == i);
            assert(g.at(p).has(a[i]));
            g.at(p).lemma_solved_unique(cell_digit(g.at(p)), a[i]);
        }
    }
}

/// The cells of row `y`, in column order.
pub open spec fn row_cells(y: int) -> spec_fn(int) -> Pos {
    |x: int| pos_at(x, y)
}

/// The cells of column `x`, in row order.
pub open spec fn col_cells(x: int) -> spec_fn(int) -> Pos {
    |y: int| pos_at(x, y)
}

/// The cells of the block at block coordinates `(bx, by)`.
pub open spec fn block_cells(bx: int, by: int) -> spec_fn(int) -> Pos {
    |i: int| pos_at(3 * bx + i % 3, 3 * by + i / 3)
}

/// Some of the unit's nine cells is solved with digit `d`.
pub open spec fn unit_covered(g: Grid, cells: spec_fn(int) -> Pos, d: int) -> bool {
    exists|i: int| 0 <= i < 9 && g.at(#[trigger] cells(i)).solved_with(d)
}

/// The digits held by the unit's first `k` cells.
spec fn unit_digits(g: Grid, cells: spec_fn(int) -> Pos, k: int) -> Set<int> {
    Set::new(|d: int| exists|i: int| 0 <= i < k && g.at(#[trigger] cells(i)).solved_with(d))
}

proof fn lemma_unit_digits_len(g: Grid, cells: spec_fn(int) -> Pos, k: int)
    requires
        g.wf(),
        g.complete(),
        g.ok(),
        forall|i: int| 0 <= i < 9 ==> (#[trigger] cells(i)).wf(),
        forall|i: int, j: int| 0 <= i < j < 9 ==> (#[trigger] cells(i)).sees(#[trigger] cells(j)),
        0 <= k <= 9,
    ensures
        unit_digits(g, cells, k).finite(),
        unit_digits(g, cells, k).len() == k,
    decreases k,
{
    if k == 0 {
        assert(unit_digits(g, cells, 0) =~= Set::<int>::empty());
    } else {
        lemma_unit_digits_len(g, cells, k - 1);
        let p = cells(k - 1);
        let f = g.at(p);
        f.lemma_count_zero();
        let dk = choose|d: int| f.has(d);
        assert(f.solved_with(dk));
        assert(!unit_digits(g, cells, k - 1).contains(dk)) by {
            if unit_digits(g, cells, k - 1).contains(dk) {
                let i = choose|i: int| 0 <= i < k - 1 && g.at(#[trigger] cells(i)).solved_with(dk);
                assert(cells(i).sees(cells(k - 1)));
            }
        }
        assert(unit_digits(g, cells, k) =~= unit_digits(g, cells, k - 1).insert(dk)) by {
            assert forall|d: int| unit_digits(g, cells, k).contains(d) implies unit_digits(
                g,
                cells,
                k - 1,
            ).insert(dk).contains(d) by {
                let i = choose|i: int| 0 <= i < k && g.at(#[trigger] cells(i)).solved_with(d);
                if i == k - 1 {
                    f.lemma_solved_unique(d, dk);
                }
            }
            assert forall|d: int|
                unit_digits(g, cells, k - 1).insert(dk).contains(d) implies unit_digits(
                g,
                cells,
                k,
            ).contains(d) by {
                if d == dk {
                    assert(g.at(cells(k - 1)).solved_with(dk));
                } else {
                    let i = choose|i: int|
                        0 <= i < k - 1 && g.at(#[trigger] cells(i)).solved_with(d);
                    assert(g.at(cells(i)).solved_with(d));
                }
            }
        }
        vstd::set::axiom_set_insert_len(unit_digits(g, cells, k - 1), dk);
    }
}

/// In a fully solved, consistent grid, each of a unit's nine mutually
/// visible cells holds one of the nine digits, so every digit appears.
pub proof fn lemma_unit_pigeonhole(g: Grid, cells: spec_fn(int) -> Pos)
    requires
        g.wf(),
        g.complete(),
        g.ok(),
        forall|i: int| 0 <= i < 9 ==> (#[trigger] cells(i)).wf(),
        forall|i: int, j: int| 0 <= i < j < 9 ==> (#[trigger] cells(i)).sees(#[trigger] cells(j)),
    ensures
        forall|d: int| 1 <= d <= 9 ==> unit_covered(g, cells, d),
{
    lemma_unit_digits_len(g, cells, 9);
    let s = unit_digits(g, cells, 9);
    let range = vstd::set_lib::set_int_range(1, 10);
    vstd::set_lib::lemma_int_range(1, 10);
    assert forall|d: int| s.contains(d) implies range.contains(d) by {
        let i = choose|i: int| 0 <= i < 9 && g.at(#[trigger] cells(i)).solved_with(d);
        assert(g.at(cells(i)).has(d));
    }
    assert forall|d: int| 1 <= d <= 9 implies unit_covered(g, cells, d) by {
        if !s.contains(d) {
            let cut = range.remove(d);
            vstd::set_lib::lemma_set_remove_finite_iff(range, d);
            vstd::set::axiom_set_remove_len(range, d);
            assert(s.subset_of(cut));
            vstd::set_lib::lemma_len_subset(s, cut);
        }
        assert(s.contains(d));
    }
}

/// In a fully solved grid that obeys the rules, every row, every column,
/// and every 3x3 block holds each digit from 1 to 9 exactly once: the
/// digit appears on some cell of the unit, and two cells of one unit
/// solved with the same digit are one and the same.
pub proof fn lemma_solved_grid_units(g: Grid)
    requires
        g.wf(),
        g.complete(),
        g.ok(),
    ensures
        forall|y: int, d: int| 0 <= y < 9 && 1 <= d <= 9 ==> #[trigger] unit_covered(
            g,
            row_cells(y),
            d,
        ),
        forall|x: int, d: int| 0 <= x < 9 && 1 <= d <= 9 ==> #[trigger] unit_covered(
            g,
            col_cells(x),
            d,
        ),
        forall|bx: int, by: int, d: int|
            0 <= bx < 3 && 0 <= by < 3 && 1 <= d <= 9 ==> #[trigger] unit_covered(
                g,
                block_cells(bx, by),
                d,
            ),
        forall|p: Pos, q: Pos, d: int|
            p.wf() && q.wf() && (p.xi() == q.xi() || p.yi() == q.yi() || crate::pos::same_block(
                p,
                q,
            )) && #[trigger] g.at(p).solved_with(d) && #[trigger] g.at(q).solved_with(d) ==> p
                == q,
{
    assert forall|y: int, d: int| 0 <= y < 9 && 1 <= d <= 9 implies #[trigger] unit_covered(
        g,
        row_cells(y),
        d,
    ) by {
        let cells = row_cells(y);
        assert forall|i: int| 0 <= i < 9 implies (#[trigger] cells(i)).wf() by {
            crate::pos::lemma_pos_at(i, y);
        }
        assert forall|i: int, j: int| 0 <= i < j < 9 implies (#[trigger] cells(i)).sees(#[trigger] cells(j)) by {
            crate::pos::lemma_pos_at(i, y);
            crate::pos::lemma_pos_at(j, y);
        }
        lemma_unit_pigeonhole(g, cells);
    }
    assert forall|x: int, d: int| 0 <= x < 9 && 1 <= d <= 9 implies #[trigger] unit_covered(
        g,
        col_cells(x),
        d,
    ) by {
        let cells = col_cells(x);
        assert forall|i: int| 0 <= i < 9 implies (#[trigger] cells(i)).wf() by {
            crate::pos::lemma_pos_at(x, i);
        }
        assert forall|i: int, j: int| 0 <= i < j < 9 implies (#[trigger] cells(i)).sees(#[trigger] cells(j)) by {
            crate::pos::lemma_pos_at(x, i);
            crate::pos::lemma_pos_at(x, j);
        }
        lemma_unit_pigeonhole(g, cells);
    }
    assert forall|bx: int, by: int, d: int|
        0 <= bx < 3 && 0 <= by < 3 && 1 <= d <= 9 implies #[trigger] unit_covered(
        g,
        block_cells(bx, by),
        d,
    ) by {
        let cells = block_cells(bx, by);
        assert forall|i: int| 0 <= i < 9 implies (#[trigger] cells(i)).wf() by {
            crate::pos::lemma_pos_at(3 * bx + i % 3, 3 * by + i / 3);
        }
        assert forall|i: int, j: int| 0 <= i < j < 9 implies (#[trigger] cells(i)).sees(#[trigger] cells(j)) by {
            crate::pos::lemma_pos_at(3 * bx + i % 3, 3 * by + i / 3);
            crate::pos::lemma_pos_at(3 * bx + j % 3, 3 * by + j / 3);
            assert((3 * bx + i % 3) / 3 == bx && (3 * by + i / 3) / 3 == by) by (nonlinear_arith)
                requires
                    0 <= i < 9,
                    0 <= bx < 3,
                    0 <= by < 3,
            ;
            assert((3 * bx + j % 3) / 3 == bx && (3 * by + j / 3) / 3 == by) by (nonlinear_arith)
                requires
                    0 <= j < 9,
                    0 <= bx < 3,
                    0 <= by < 3,
            ;
            assert(i % 3 != j % 3 || i / 3 != j / 3);
        }
        lemma_unit_pigeonhole(g, cells);
    }
    assert forall|p: Pos, q: Pos, d: int|
        p.wf() && q.wf() && (p.xi() == q.xi() || p.yi() == q.yi() || crate::pos::same_block(p, q))
            && #[trigger] g.at(p).solved_with(d) && #[trigger] g.at(q).solved_with(d) implies p
        == q by {
        Pos::lemma_pos_eq(p, q);
        if p != q {
            assert(p.sees(q));
        }
    }
}

/// Connects a position to the row-major index it addresses.
pub proof fn lemma_at_idx(g: Grid, p: Pos)
    requires
        p.wf(),
    ensures
        pos_at(p.idx() % 9, p.idx() / 9) == p,
        assign_of(g)[p.idx()] == cell_digit(g.at(p)),
{
    assert((p.yi() * 9 + p.xi()) % 9 == p.xi() && (p.yi() * 9 + p.xi()) / 9 == p.yi())
        by (nonlinear_arith)
        requires
            0 <= p.xi() <= 8,
            0 <= p.yi() <= 8,
    ;
    crate::pos::lemma_pos_at(p.idx() % 9, p.idx() / 9);
    Pos::lemma_pos_eq(pos_at(p.idx() % 9, p.idx() / 9), p);
}

} // verus!
