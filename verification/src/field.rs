use vstd::prelude::*;

use crate::number::{bit_at, digit_bit, Number};

verus! {

/// A sudoku cell. It holds the set of digits still possible there, as a
/// 9-bit candidate mask.
#[derive(Clone, Copy, Debug, PartialEq, Eq)]
pub struct Field {
    mask: u16,
}

impl Field {
    /// The raw candidate mask.
    pub closed spec fn mask_spec(self) -> u16 {
        self.mask
    }

    /// Well-formed cells use only the nine lowest bits.
    pub open spec fn wf(self) -> bool {
        self.mask_spec() < 512
    }

    /// Whether digit `d` is still a candidate in this cell.
    pub open spec fn has(self, d: int) -> bool {
        1 <= d <= 9 && bit_at(self.mask_spec(), (d - 1) as u16)
    }

    /// How many digits in `1..d` are candidates.
    pub open spec fn count_below(self, d: int) -> nat
        decreases d,
    {
        if d <= 1 {
            0
        } else {
            self.count_below(d - 1) + (if self.has(d - 1) {
                1nat
            } else {
                0nat
            })
        }
    }

    /// How many candidate digits remain.
    pub open spec fn count(self) -> nat {
        self.count_below(10)
    }

    /// The cell is solved: exactly one candidate remains.
    pub open spec fn solved(self) -> bool {
        self.count() == 1
    }

    /// The cell is solved and its digit is `d`.
    pub open spec fn solved_with(self, d: int) -> bool {
        self.count() == 1 && self.has(d)
    }

    /// Every candidate of this cell is also a candidate of `other`.
    pub open spec fn subset_of(self, other: Field) -> bool {
        forall|d: int| self.has(d) ==> other.has(d)
    }

    /// Creates a sudoku cell containing only the provided number.
    pub fn new(n: u8) -> (r: Self)
        requires
            1 <= n <= 9,
        ensures
            r.wf(),
            forall|d: int| r.has(d) <==> d == n as int,
            r.solved_with(n as int),
    {
        let r = Field { mask: 1u16 << ((n - 1) as u16) };
        proof {
            lemma_single_bit((n - 1) as u16);
            assert forall|d: int| r.has(d) <==> d == n as int by {
                if 1 <= d <= 9 {
                    assert(bit_at(1u16 << ((n - 1) as u16), (d - 1) as u16) <==> (d - 1) as u16
                        == (n - 1) as u16);
                }
            }
            r.lemma_count_of_singleton(n as int);
        }
        r
    }

    /// Creates an unconstrained sudoku cell, which can contain any number.
    pub fn full() -> (r: Self)
        ensures
            r.wf(),
            forall|d: int| r.has(d) <==> 1 <= d <= 9,
            r.count() == 9,
            !r.solved(),
    {
        let r = Field { mask: 0b111_111_111 };
        proof {
            assert(forall|b: u16| b < 9 ==> bit_at(511u16, b)) by (bit_vector);
            reveal_with_fuel(Field::count_below, 11);
            assert(r.count_below(10) == 9);
        }
        r
    }

    /// Whether the sudoku cell is empty -- meaning that it cannot contain
    /// any number, and the sudoku is unsolvable.
    pub fn is_empty(&self) -> (r: bool)
        requires
            self.wf(),
        ensures
            r <==> self.count() == 0,
    {
        proof {
            if self.mask == 0 {
                assert(forall|b: u16| !bit_at(0u16, b)) by (bit_vector);
                self.lemma_count_zero();
            } else {
                let m = self.mask;
                assert(m < 512 && m != 0 ==> bit_at(m, 0) || bit_at(m, 1) || bit_at(m, 2)
                    || bit_at(m, 3) || bit_at(m, 4) || bit_at(m, 5) || bit_at(m, 6) || bit_at(
                    m,
                    7,
                ) || bit_at(m, 8)) by (bit_vector);
                assert(self.has(1) || self.has(2) || self.has(3) || self.has(4) || self.has(5)
                    || self.has(6) || self.has(7) || self.has(8) || self.has(9));
                assert(exists|d: int| self.has(d));
                let d = choose|d: int| self.has(d);
                self.lemma_has_count_pos(d);
            }
        }
        self.mask == 0
    }

    /// Returns the number of possibilities in this sudoku cell.
    pub fn len(&self) -> (r: u32)
        ensures
            r == self.count(),
    {
        let mut c: u32 = 0;
        let mut d: u8 = 1;
        while d <= 9
            invariant
                1 <= d <= 10,
                c == self.count_below(d as int),
                c < d,
            decreases 10 - d,
        {
            if (self.mask >> ((d - 1) as u16)) & 1 == 1 {
                c = c + 1;
            }
            d = d + 1;
        }
        c
    }

    /// Returns the number in this sudoku cell, if it has exactly one
    /// possibility.
    pub fn solution(self) -> (r: Option<Number>)
        ensures
            match r {
                Some(n) => n.wf() && self.solved_with(n.as_int()),
                None => !self.solved(),
            },
    {
        match Number::from_smallest_bit(self.mask) {
            Some(n) => {
                if self.len() == 1 {
                    Some(n)
                } else {
                    None
                }
            },
            None => {
                proof {
                    assert(forall|d: int| !self.has(d));
                    self.lemma_count_zero();
                }
                None
            },
        }
    }

    /// Returns all possible numbers in this sudoku cell, in ascending order.
    pub fn possibilities(self) -> (r: Vec<Number>)
        ensures
            r@.len() == self.count(),
            forall|i: int|
                0 <= i < r@.len() ==> (#[trigger] r@[i]).wf() && self.has(r@[i].as_int()),
            forall|i: int, j: int| 0 <= i < j < r@.len() ==> r@[i].as_int() < r@[j].as_int(),
            forall|d: int|
                self.has(d) ==> exists|i: int| 0 <= i < r@.len() && (#[trigger] r@[i]).as_int()
                    == d,
    {
        let mut r: Vec<Number> = Vec::new();
        let mut d: u8 = 1;
        while d <= 9
            invariant
                1 <= d <= 10,
                r@.len() == self.count_below(d as int),
                forall|i: int|
                    0 <= i < r@.len() ==> (#[trigger] r@[i]).wf() && self.has(r@[i].as_int())
                        && r@[i].as_int() < d,
                forall|i: int, j: int| 0 <= i < j < r@.len() ==> r@[i].as_int() < r@[j].as_int(),
                forall|e: int|
                    1 <= e < d && self.has(e) ==> exists|i: int|
                        0 <= i < r@.len() && (#[trigger] r@[i]).as_int() == e,
            decreases 10 - d,
        {
            let ghost r0 = r@;
            if (self.mask >> ((d - 1) as u16)) & 1 == 1 {
                r.push(Number::new(d));
            }
            proof {
                assert forall|e: int|
                    1 <= e < d + 1 && self.has(e) implies exists|i: int|
                    0 <= i < r@.len() && (#[trigger] r@[i]).as_int() == e by {
                    if e == d as int {
                        assert(r@[r@.len() - 1].as_int() == e);
                    } else {
                        let i = choose|i: int|
                            0 <= i < r0.len() && (#[trigger] r0[i]).as_int() == e;
                        assert(r@[i].as_int() == e);
                    }
                }
            }
            d = d + 1;
        }
        r
    }

    /// Returns whether `n` is possible in the sudoku cell.
    pub fn contains(self, n: Number) -> (r: bool)
        requires
            n.wf(),
        ensures
            r == self.has(n.as_int()),
    {
        proof {
            let k = (n.as_int() - 1) as u16;
            let m = self.mask;
            assert(k < 9 ==> ((m & (1u16 << k) != 0) <==> bit_at(m, k))) by (bit_vector);
        }
        self.mask & n.as_bit() != 0
    }

    /// Sets `n` as the solution for this sudoku cell.
    pub fn set(&mut self, n: Number)
        requires
            n.wf(),
        ensures
            final(self).wf(),
            forall|d: int| final(self).has(d) <==> d == n.as_int(),
            final(self).solved_with(n.as_int()),
    {
        self.mask = n.as_bit();
        proof {
            lemma_single_bit((n.as_int() - 1) as u16);
            assert forall|d: int| self.has(d) <==> d == n.as_int() by {
                if 1 <= d <= 9 {
                    assert(bit_at(digit_bit(n.as_int()), (d - 1) as u16) <==> (d - 1) as u16 == (
                    n.as_int() - 1) as u16);
                }
            }
            self.lemma_count_of_singleton(n.as_int());
        }
    }

    /// Removes `n` from the list of possibilities in this sudoku cell.
    pub fn remove(&mut self, n: Number)
        requires
            n.wf(),
        ensures
            final(self).wf(),
            forall|d: int| final(self).has(d) <==> old(self).has(d) && d != n.as_int(),
            final(self).count() == old(self).count() - (if old(self).has(n.as_int()) {
                1int
            } else {
                0int
            }),
    {
        proof {
            lemma_single_bit((n.as_int() - 1) as u16);
        }
        self.mask = self.mask & (0b111_111_111 - n.as_bit());
        proof {
            let k = (n.as_int() - 1) as u16;
            let m0 = old(self).mask_spec();
            let m1 = self.mask_spec();
            assert(m1 < 512 && forall|b: u16|
                b < 9 ==> (#[trigger] bit_at(m1, b) <==> bit_at(m0, b) && b != k)) by (bit_vector)
                requires
                    k < 9,
                    m1 == (m0 & ((511u16 - (1u16 << k)) as u16)),
            ;
            assert forall|d: int| self.has(d) <==> old(self).has(d) && d != n.as_int() by {
                if 1 <= d <= 9 {
                    assert(bit_at(m1, (d - 1) as u16) <==> bit_at(m0, (d - 1) as u16) && (d
                        - 1) as u16 != k);
                }
            }
            lemma_count_after_drop(*old(self), *self, n.as_int());
        }
    }

    /// Digits in `1..d` never number more than `d - 1`.
    pub proof fn lemma_count_below_bound(self, d: int)
        requires
            1 <= d,
        ensures
            self.count_below(d) <= d - 1,
        decreases d,
    {
        if d > 1 {
            self.lemma_count_below_bound(d - 1);
        }
    }

    /// Counting over a wider range never shrinks the count.
    pub proof fn lemma_count_below_mono(self, a: int, b: int)
        requires
            a <= b,
        ensures
            self.count_below(a) <= self.count_below(b),
        decreases b - a,
    {
        if a < b {
            self.lemma_count_below_mono(a, b - 1);
        }
    }

    /// A cell holding candidate `d` has a positive count.
    pub proof fn lemma_has_count_pos(self, d: int)
        requires
            self.has(d),
        ensures
            self.count() >= 1,
    {
        self.lemma_count_below_mono(d + 1, 10);
    }

    /// A cell counts zero exactly when no digit is a candidate.
    pub proof fn lemma_count_zero(self)
        ensures
            self.count() == 0 <==> forall|d: int| !self.has(d),
    {
        if forall|d: int| !self.has(d) {
            self.lemma_count_none_below(10);
        } else {
            let d = choose|d: int| self.has(d);
            self.lemma_has_count_pos(d);
        }
    }

    proof fn lemma_count_none_below(self, d: int)
        requires
            forall|e: int| !self.has(e),
        ensures
            self.count_below(d) == 0,
        decreases d,
    {
        if d > 1 {
            self.lemma_count_none_below(d - 1);
        }
    }

    /// Two distinct candidates force a count of at least two.
    pub proof fn lemma_two_candidates(self, d: int, e: int)
        requires
            self.has(d),
            self.has(e),
            d != e,
        ensures
            self.count() >= 2,
    {
        let lo = if d < e {
            d
        } else {
            e
        };
        let hi = if d < e {
            e
        } else {
            d
        };
        self.lemma_count_below_mono(lo + 1, hi);
        self.lemma_count_below_mono(hi + 1, 10);
    }

    /// A solved cell has no candidate besides its digit.
    pub proof fn lemma_solved_unique(self, d: int, e: int)
        requires
            self.solved_with(d),
            self.has(e),
        ensures
            d == e,
    {
        if d != e {
            self.lemma_two_candidates(d, e);
        }
    }

    /// Two well-formed cells solved with the same digit are the same value.
    pub proof fn lemma_solved_eq(self, other: Field, d: int)
        requires
            self.wf(),
            other.wf(),
            self.solved_with(d),
            other.solved_with(d),
        ensures
            self == other,
    {
        assert forall|b: u16| b < 9 implies (bit_at(self.mask_spec(), b) <==> b == (d - 1) as u16)
            by {
            if bit_at(self.mask_spec(), b) {
                self.lemma_solved_unique(d, b + 1);
            }
        }
        assert forall|b: u16| b < 9 implies (bit_at(other.mask_spec(), b) <==> b == (d
            - 1) as u16) by {
            if bit_at(other.mask_spec(), b) {
                other.lemma_solved_unique(d, b + 1);
            }
        }
        let ma = self.mask_spec();
        let mb = other.mask_spec();
        assert(ma == mb) by (bit_vector)
            requires
                ma < 512,
                mb < 512,
                (bit_at(ma, 0) <==> bit_at(mb, 0)),
                (bit_at(ma, 1) <==> bit_at(mb, 1)),
                (bit_at(ma, 2) <==> bit_at(mb, 2)),
                (bit_at(ma, 3) <==> bit_at(mb, 3)),
                (bit_at(ma, 4) <==> bit_at(mb, 4)),
                (bit_at(ma, 5) <==> bit_at(mb, 5)),
                (bit_at(ma, 6) <==> bit_at(mb, 6)),
                (bit_at(ma, 7) <==> bit_at(mb, 7)),
                (bit_at(ma, 8) <==> bit_at(mb, 8)),
        ;
    }

    /// A cell pinned to one digit is solved, and its solved digit is that
    /// digit and no other.
    pub proof fn lemma_pinned_cell(self, n: int)
        requires
            1 <= n <= 9,
            forall|d: int| self.has(d) <==> d == n,
        ensures
            self.solved_with(n),
            forall|e: int| self.solved_with(e) ==> e == n,
    {
        self.lemma_count_of_singleton(n);
        assert forall|e: int| self.solved_with(e) implies e == n by {
            self.lemma_solved_unique(e, n);
        }
    }

    /// A cell with all nine digits counted holds every digit.
    pub proof fn lemma_count_nine(self)
        requires
            self.count() == 9,
        ensures
            forall|d: int| 1 <= d <= 9 ==> self.has(d),
    {
        assert forall|d: int| 1 <= d <= 9 implies self.has(d) by {
            if !self.has(d) {
                self.lemma_count_missing_below(d, 10);
            }
        }
    }

    proof fn lemma_count_missing_below(self, d: int, k: int)
        requires
            1 <= d,
            !self.has(d),
            k >= 1,
        ensures
            self.count_below(k) <= k - 1 - (if d < k {
                1int
            } else {
                0int
            }),
        decreases k,
    {
        if k > 1 {
            self.lemma_count_missing_below(d, k - 1);
        }
    }

    proof fn lemma_count_of_singleton(self, d: int)
        requires
            1 <= d <= 9,
            forall|e: int| self.has(e) <==> e == d,
        ensures
            self.count() == 1,
    {
        self.lemma_count_single_below(d, 10);
    }

    proof fn lemma_count_single_below(self, d: int, b: int)
        requires
            1 <= d <= 9,
            forall|e: int| self.has(e) <==> e == d,
        ensures
            self.count_below(b) == (if d < b {
                1nat
            } else {
                0nat
            }),
        decreases b,
    {
        if b > 1 {
            self.lemma_count_single_below(d, b - 1);
        }
    }
}

/// A single-bit mask is below 512 and sets exactly its own bit.
proof fn lemma_single_bit(k: u16)
    by (bit_vector)
    requires
        k < 9,
    ensures
        (1u16 << k) < 512,
        forall|b: u16| #[trigger] bit_at(1u16 << k, b) <==> b == k,
{
}

/// Dropping one digit from a cell lowers the count by one if it was present.
proof fn lemma_count_after_drop(a: Field, b: Field, k: int)
    requires
        forall|d: int| b.has(d) <==> a.has(d) && d != k,
    ensures
        b.count() == a.count() - (if a.has(k) {
            1int
        } else {
            0int
        }),
{
    lemma_count_after_drop_below(a, b, k, 10);
}

proof fn lemma_count_after_drop_below(a: Field, b: Field, k: int, up: int)
    requires
        forall|d: int| b.has(d) <==> a.has(d) && d != k,
    ensures
        b.count_below(up) == a.count_below(up) - (if a.has(k) && k < up {
            1int
        } else {
            0int
        }),
    decreases up,
{
    if up > 1 {
        lemma_count_after_drop_below(a, b, k, up - 1);
    }
}

} // verus!
