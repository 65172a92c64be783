use vstd::prelude::*;

verus! {

/// A position in a 9x9 sudoku grid. It can be used to index a grid.
///
/// To iterate over all positions in the canonical order, use
/// [Pos::iterator()].
#[derive(Clone, Copy, Debug, PartialEq, Eq, PartialOrd, Ord)]
pub struct Pos {
    x: u8,
    y: u8,
}

impl Pos {
    /// The zero-based column, as a mathematical integer.
    pub closed spec fn xi(self) -> int {
        self.x as int
    }

    /// The zero-based row, as a mathematical integer.
    pub closed spec fn yi(self) -> int {
        self.y as int
    }

    /// Well-formed positions have both coordinates in `0..=8`.
    pub open spec fn wf(self) -> bool {
        0 <= self.xi() <= 8 && 0 <= self.yi() <= 8
    }

    /// The row-major index of this position, used to address cell storage.
    pub open spec fn idx(self) -> int {
        self.yi() * 9 + self.xi()
    }

    /// The rank of this position in the canonical enumeration order: all
    /// rows of column 0 first, then all rows of column 1, and so on.
    pub open spec fn scan(self) -> int {
        self.xi() * 9 + self.yi()
    }

    /// Whether `other` is visible from this position under standard sudoku
    /// rules: a different cell in the same row, column, or 3x3 block.
    pub open spec fn sees(self, other: Pos) -> bool {
        &&& !(self.xi() == other.xi() && self.yi() == other.yi())
        &&& (self.xi() == other.xi() || self.yi() == other.yi() || (self.xi() / 3 == other.xi() / 3
            && self.yi() / 3 == other.yi() / 3))
    }

    /// Positions are equal exactly when their coordinates are.
    pub proof fn lemma_pos_eq(a: Pos, b: Pos)
        ensures
            (a == b) <==> (a.xi() == b.xi() && a.yi() == b.yi()),
    {
    }

    /// Creates a sudoku position from `x` (column) and `y` (row) coordinates.
    /// The coordinates start with 0, so they must be at most 8.
    pub fn new(x: u8, y: u8) -> (r: Self)
        requires
            x <= 8,
            y <= 8,
        ensures
            r.wf(),
            r.xi() == x as int,
            r.yi() == y as int,
    {
        Pos { x, y }
    }

    /// Returns the zero-based `x` (column) coordinate.
    pub fn x(self) -> (r: u8)
        requires
            self.wf(),
        ensures
            r as int == self.xi(),
    {
        self.x
    }

    /// Returns the zero-based `y` (row) coordinate.
    pub fn y(self) -> (r: u8)
        requires
            self.wf(),
        ensures
            r as int == self.yi(),
    {
        self.y
    }

    /// Returns all positions of a 9x9 sudoku grid, in the canonical
    /// enumeration order.
    pub fn iterator() -> (r: Vec<Pos>)
        ensures
            r@.len() == 81,
            forall|k: int|
                0 <= k < 81 ==> (#[trigger] r@[k]).wf() && r@[k].xi() == k / 9 && r@[k].yi() == k
                    % 9,
    {
        let mut r: Vec<Pos> = Vec::new();
        let mut x: u8 = 0;
        while x < 9
            invariant
                x <= 9,
                r@.len() == x * 9,
                forall|k: int|
                    0 <= k < r@.len() ==> (#[trigger] r@[k]).wf() && r@[k].xi() == k / 9
                        && r@[k].yi() == k % 9,
            decreases 9 - x,
        {
            let mut y: u8 = 0;
            while y < 9
                invariant
                    x < 9,
                    y <= 9,
                    r@.len() == x * 9 + y,
                    forall|k: int|
                        0 <= k < r@.len() ==> (#[trigger] r@[k]).wf() && r@[k].xi() == k / 9
                            && r@[k].yi() == k % 9,
                decreases 9 - y,
            {
                r.push(Pos { x, y });
                proof {
                    assert((x * 9 + y) / 9 == x as int && (x * 9 + y) % 9 == y as int)
                        by (nonlinear_arith)
                        requires
                            x < 9,
                            y < 9,
                    ;
                }
                y = y + 1;
            }
            x = x + 1;
        }
        r
    }

    /// Returns all the positions that are visible from this position, in
    /// the order: remaining cells of the 3x3 block (columns first), then
    /// the remaining cells of the row, then the remaining cells of the
    /// column.
    pub fn get_visible_positions(self) -> (r: Vec<Pos>)
        requires
            self.wf(),
        ensures
            r@.len() == 20,
            forall|i: int| 0 <= i < 20 ==> (#[trigger] r@[i]).wf() && self.sees(r@[i]),
            forall|i: int, j: int| 0 <= i < j < 20 ==> r@[i] != r@[j],
            forall|q: Pos| q.wf() && self.sees(q) ==> r@.contains(q),
            forall|i: int| 0 <= i < 8 ==> same_block(self, #[trigger] r@[i]),
            forall|i: int, j: int| 0 <= i < j < 8 ==> r@[i].scan() < r@[j].scan(),
            forall|i: int|
                8 <= i < 14 ==> (#[trigger] r@[i]).yi() == self.yi() && !same_block(self, r@[i]),
            forall|i: int, j: int| 8 <= i < j < 14 ==> r@[i].xi() < r@[j].xi(),
            forall|i: int|
                14 <= i < 20 ==> (#[trigger] r@[i]).xi() == self.xi() && !same_block(self, r@[i]),
            forall|i: int, j: int| 14 <= i < j < 20 ==> r@[i].yi() < r@[j].yi(),
    {
        let x0 = self.x;
        let y0 = self.y;
        let bx = x0 - x0 % 3;
        let by = y0 - y0 % 3;
        proof {
            assert(bx as int == 3 * (self.xi() / 3) && by as int == 3 * (self.yi() / 3));
        }
        let mut r: Vec<Pos> = Vec::new();
        let mut x = bx;
        while x < bx + 3
            invariant
                self.wf(),
                x0 == self.xi() && y0 == self.yi(),
                bx as int == 3 * (self.xi() / 3),
                by as int == 3 * (self.yi() / 3),
                bx <= x <= bx + 3,
                bx + 3 <= 9,
                by + 3 <= 9,
                forall|i: int|
                    0 <= i < r@.len() ==> (#[trigger] r@[i]).wf() && self.sees(r@[i]) && same_block(
                        self,
                        r@[i],
                    ) && r@[i].scan() < x * 9 + by,
                forall|i: int, j: int| 0 <= i < j < r@.len() ==> r@[i] != r@[j],
                forall|i: int, j: int| 0 <= i < j < r@.len() ==> r@[i].scan() < r@[j].scan(),
                r@.len() == (x - bx) * 3 - (if self.xi() < x {
                    1int
                } else {
                    0int
                }),
                forall|q: Pos|
                    q.wf() && same_block(self, q) && !(q.xi() == self.xi() && q.yi() == self.yi())
                        && q.xi() < x ==> r@.contains(q),
            decreases bx + 3 - x,
        {
            let mut y = by;
            while y < by + 3
                invariant
                    self.wf(),
                    x0 == self.xi() && y0 == self.yi(),
                    bx as int == 3 * (self.xi() / 3),
                    by as int == 3 * (self.yi() / 3),
                    bx <= x < bx + 3,
                    by <= y <= by + 3,
                    bx + 3 <= 9,
                    by + 3 <= 9,
                    forall|i: int|
                        0 <= i < r@.len() ==> (#[trigger] r@[i]).wf() && self.sees(r@[i])
                            && same_block(self, r@[i]) && r@[i].scan() < x * 9 + y,
                    forall|i: int, j: int| 0 <= i < j < r@.len() ==> r@[i] != r@[j],
                    forall|i: int, j: int| 0 <= i < j < r@.len() ==> r@[i].scan() < r@[j].scan(),
                    r@.len() == (x - bx) * 3 + (y - by) - (if self.xi() < x || (self.xi() == x
                        && self.yi() < y) {
                        1int
                    } else {
                        0int
                    }),
                    forall|q: Pos|
                        q.wf() && same_block(self, q) && !(q.xi() == self.xi() && q.yi()
                            == self.yi()) && (q.xi() < x || (q.xi() == x && q.yi() < y))
                            ==> r@.contains(q),
                decreases by + 3 - y,
            {
                let ghost r0 = r@;
                if x != x0 || y != y0 {
                    r.push(Pos { x, y });
                    proof {
                        let q = Pos { x, y };
                        assert(q.xi() / 3 == self.xi() / 3 && q.yi() / 3 == self.yi() / 3)
                            by (nonlinear_arith)
                            requires
                                3 * (self.xi() / 3) <= q.xi() < 3 * (self.xi() / 3) + 3,
                                3 * (self.yi() / 3) <= q.yi() < 3 * (self.yi() / 3) + 3,
                        ;
                    }
                }
                proof {
                    assert forall|q: Pos|
                        q.wf() && same_block(self, q) && !(q.xi() == self.xi() && q.yi()
                            == self.yi()) && (q.xi() < x || (q.xi() == x && q.yi() < y
                            + 1)) implies r@.contains(q) by {
                        if q.xi() == x as int && q.yi() == y as int {
                            Pos::lemma_pos_eq(q, Pos { x, y });
                            assert(r@[r@.len() - 1] == q);
                        } else {
                            let i = choose|i: int| 0 <= i < r0.len() && r0[i] == q;
                            assert(r@[i] == q);
                        }
                    }
                }
                y = y + 1;
            }
            x = x + 1;
        }
        proof {
            assert(r@.len() == 8);
        }
        let mut ci: u8 = 0;
        while ci < 9
            invariant
                self.wf(),
                x0 == self.xi() && y0 == self.yi(),
                bx as int == 3 * (self.xi() / 3),
                by as int == 3 * (self.yi() / 3),
                ci <= 9,
                bx + 3 <= 9,
                by + 3 <= 9,
                forall|i: int|
                    0 <= i < 8 ==> (#[trigger] r@[i]).wf() && self.sees(r@[i]) && same_block(
                        self,
                        r@[i],
                    ),
                forall|i: int|
                    8 <= i < r@.len() ==> (#[trigger] r@[i]).wf() && self.sees(r@[i]) && r@[i].yi()
                        == self.yi() && !same_block(self, r@[i]) && r@[i].xi() < ci,
                forall|i: int, j: int| 0 <= i < j < r@.len() ==> r@[i] != r@[j],
                forall|i: int, j: int| 0 <= i < j < 8 ==> r@[i].scan() < r@[j].scan(),
                forall|i: int, j: int| 8 <= i < j < r@.len() ==> r@[i].xi() < r@[j].xi(),
                r@.len() == 8 + (if ci <= bx {
                    ci as int
                } else if ci <= bx + 3 {
                    bx as int
                } else {
                    ci - 3
                }),
                forall|q: Pos|
                    q.wf() && same_block(self, q) && !(q.xi() == self.xi() && q.yi() == self.yi())
                        ==> r@.contains(q),
                forall|q: Pos|
                    q.wf() && q.yi() == self.yi() && !same_block(self, q) && q.xi() < ci
                        ==> r@.contains(q),
            decreases 9 - ci,
        {
            let ghost r0 = r@;
            if ci < bx || ci >= bx + 3 {
                r.push(Pos { x: ci, y: y0 });
                proof {
                    let q = Pos { x: ci, y: y0 };
                    assert(q.xi() / 3 != self.xi() / 3) by (nonlinear_arith)
                        requires
                            q.xi() < 3 * (self.xi() / 3) || q.xi() >= 3 * (self.xi() / 3) + 3,
                            0 <= q.xi() <= 8,
                    ;
                }
            }
            proof {
                assert forall|q: Pos|
                    (q.wf() && same_block(self, q) && !(q.xi() == self.xi() && q.yi()
                        == self.yi())) || (q.wf() && q.yi() == self.yi() && !same_block(self, q)
                        && q.xi() < ci + 1) implies r@.contains(q) by {
                    if q.yi() == self.yi() && !same_block(self, q) && q.xi() == ci as int {
                        Pos::lemma_pos_eq(q, Pos { x: ci, y: y0 });
                        assert(r@[r@.len() - 1] == q);
                    } else {
                        let i = choose|i: int| 0 <= i < r0.len() && r0[i] == q;
                        assert(r@[i] == q);
                    }
                }
            }
            ci = ci + 1;
        }
        proof {
            assert(r@.len() == 14);
        }
        let mut ri: u8 = 0;
        while ri < 9
            invariant
                self.wf(),
                x0 == self.xi() && y0 == self.yi(),
                bx as int == 3 * (self.xi() / 3),
                by as int == 3 * (self.yi() / 3),
                ri <= 9,
                bx + 3 <= 9,
                by + 3 <= 9,
                forall|i: int|
                    0 <= i < 8 ==> (#[trigger] r@[i]).wf() && self.sees(r@[i]) && same_block(
                        self,
                        r@[i],
                    ),
                forall|i: int|
                    8 <= i < 14 ==> (#[trigger] r@[i]).wf() && self.sees(r@[i]) && r@[i].yi()
                        == self.yi() && !same_block(self, r@[i]),
                forall|i: int|
                    14 <= i < r@.len() ==> (#[trigger] r@[i]).wf() && self.sees(r@[i])
                        && r@[i].xi() == self.xi() && r@[i].yi() != self.yi() && !same_block(
                        self,
                        r@[i],
                    ) && r@[i].yi() < ri,
                forall|i: int, j: int| 0 <= i < j < r@.len() ==> r@[i] != r@[j],
                forall|i: int, j: int| 0 <= i < j < 8 ==> r@[i].scan() < r@[j].scan(),
                forall|i: int, j: int| 8 <= i < j < 14 ==> r@[i].xi() < r@[j].xi(),
                forall|i: int, j: int| 14 <= i < j < r@.len() ==> r@[i].yi() < r@[j].yi(),
                r@.len() == 14 + (if ri <= by {
                    ri as int
                } else if ri <= by + 3 {
                    by as int
                } else {
                    ri - 3
                }),
                forall|q: Pos|
                    q.wf() && same_block(self, q) && !(q.xi() == self.xi() && q.yi() == self.yi())
                        ==> r@.contains(q),
                forall|q: Pos|
                    q.wf() && q.yi() == self.yi() && !same_block(self, q) ==> r@.contains(q),
                forall|q: Pos|
                    q.wf() && q.xi() == self.xi() && !same_block(self, q) && q.yi() < ri
                        ==> r@.contains(q),
            decreases 9 - ri,
        {
            let ghost r0 = r@;
            if ri < by || ri >= by + 3 {
                r.push(Pos { x: x0, y: ri });
                proof {
                    let q = Pos { x: x0, y: ri };
                    assert(q.yi() / 3 != self.yi() / 3) by (nonlinear_arith)
                        requires
                            q.yi() < 3 * (self.yi() / 3) || q.yi() >= 3 * (self.yi() / 3) + 3,
                            0 <= q.yi() <= 8,
                    ;
                }
            }
            proof {
                assert forall|q: Pos|
                    (q.wf() && same_block(self, q) && !(q.xi() == self.xi() && q.yi()
                        == self.yi())) || (q.wf() && q.yi() == self.yi() && !same_block(self, q))
                        || (q.wf() && q.xi() == self.xi() && !same_block(self, q) && q.yi() < ri
                        + 1) implies r@.contains(q) by {
                    if q.xi() == self.xi() && q.yi() != self.yi() && !same_block(self, q) && q.yi()
                        == ri as int {
                        Pos::lemma_pos_eq(q, Pos { x: x0, y: ri });
                        assert(r@[r@.len() - 1] == q);
                    } else {
                        let i = choose|i: int| 0 <= i < r0.len() && r0[i] == q;
                        assert(r@[i] == q);
                    }
                }
            }
            ri = ri + 1;
        }
        proof {
            assert forall|q: Pos| q.wf() && self.sees(q) implies r@.contains(q) by {
                if q.yi() == self.yi() && !same_block(self, q) {
                } else if q.xi() == self.xi() && !same_block(self, q) {
                } else {
                    assert(same_block(self, q));
                }
            }
        }
        r
    }
}

/// Whether two positions share a 3x3 block.
pub open spec fn same_block(a: Pos, b: Pos) -> bool {
    a.xi() / 3 == b.xi() / 3 && a.yi() / 3 == b.yi() / 3
}

/// A well-formed position is recovered from its enumeration rank.
pub proof fn lemma_scan(q: Pos)
    requires
        q.wf(),
    ensures
        0 <= q.scan() < 81,
        q.scan() / 9 == q.xi(),
        q.scan() % 9 == q.yi(),
{
    assert((q.xi() * 9 + q.yi()) / 9 == q.xi() && (q.xi() * 9 + q.yi()) % 9 == q.yi())
        by (nonlinear_arith)
        requires
            0 <= q.xi() <= 8,
            0 <= q.yi() <= 8,
    ;
}

/// The position at the given column and row.
pub closed spec fn pos_at(x: int, y: int) -> Pos {
    Pos { x: x as u8, y: y as u8 }
}

/// For coordinates in range, `pos_at` builds the well-formed position with
/// those coordinates.
pub proof fn lemma_pos_at(x: int, y: int)
    requires
        0 <= x <= 8,
        0 <= y <= 8,
    ensures
        pos_at(x, y).wf(),
        pos_at(x, y).xi() == x,
        pos_at(x, y).yi() == y,
{
}

} // verus!
