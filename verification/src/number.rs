use vstd::prelude::*;

verus! {

/// A sudoku digit between 1 and 9.
#[derive(Clone, Copy, Debug, PartialEq, Eq)]
pub struct Number {
    d: u8,
}

impl Number {
    /// The digit this value stands for, as a mathematical integer.
    pub closed spec fn as_int(self) -> int {
        self.d as int
    }

    /// Well-formed digits lie between 1 and 9.
    pub open spec fn wf(self) -> bool {
        1 <= self.as_int() <= 9
    }

    /// Creates a number from a digit between 1 and 9.
    pub fn new(n: u8) -> (r: Self)
        requires
            1 <= n <= 9,
        ensures
            r.as_int() == n as int,
            r.wf(),
    {
        Number { d: n }
    }

    /// Returns the bit pattern standing for this digit: bit `d - 1` set, all
    /// others clear.
    pub(crate) fn as_bit(self) -> (r: u16)
        requires
            self.wf(),
        ensures
            r == digit_bit(self.as_int()),
    {
        1u16 << ((self.d - 1) as u16)
    }

    /// Returns the [Number] equivalent to the least significant set bit in
    /// `n`, as long as that bit stands for a digit between 1 and 9.
    pub(crate) fn from_smallest_bit(n: u16) -> (r: Option<Self>)
        ensures
            match r {
                Some(m) => {
                    &&& m.wf()
                    &&& bit_at(n, (m.as_int() - 1) as u16)
                    &&& forall|b: u16| b < m.as_int() - 1 ==> !bit_at(n, b)
                },
                None => forall|b: u16| b < 9 ==> !bit_at(n, b),
            },
    {
        let mut d: u8 = 1;
        while d <= 9
            invariant
                1 <= d <= 10,
                forall|b: u16| b < d - 1 ==> !bit_at(n, b),
            decreases 10 - d,
        {
            if (n >> ((d - 1) as u16)) & 1 == 1 {
                return Some(Number { d });
            }
            d = d + 1;
        }
        None
    }

    /// Returns the number as a `u8`.
    pub fn as_u8(self) -> (r: u8)
        requires
            self.wf(),
        ensures
            r as int == self.as_int(),
    {
        self.d
    }

    /// Returns the number formatted as a `&'static str`: the one ASCII
    /// digit that names it.
    pub fn as_str(self) -> (r: &'static str)
        requires
            self.wf(),
        ensures
            r@.len() == 1,
            r@[0] as int == 48 + self.as_int(),
    {
        proof {
            reveal_strlit("1");
            reveal_strlit("2");
            reveal_strlit("3");
            reveal_strlit("4");
            reveal_strlit("5");
            reveal_strlit("6");
            reveal_strlit("7");
            reveal_strlit("8");
            reveal_strlit("9");
        }
        match self.d {
            1 => "1",
            2 => "2",
            3 => "3",
            4 => "4",
            5 => "5",
            6 => "6",
            7 => "7",
            8 => "8",
            _ => "9",
        }
    }

    /// Returns the number as a `&'static str` formatted using small digits.
    pub fn as_str_small(self) -> (r: &'static str)
        requires
            self.wf(),
        ensures
            r@.len() == 1,
    {
        proof {
            reveal_strlit("\u{00b9}");
            reveal_strlit("\u{00b2}");
            reveal_strlit("\u{00b3}");
            reveal_strlit("\u{2074}");
            reveal_strlit("\u{2075}");
            reveal_strlit("\u{2076}");
            reveal_strlit("\u{2077}");
            reveal_strlit("\u{2078}");
            reveal_strlit("\u{2079}");
        }
        match self.d {
            1 => "\u{00b9}",
            2 => "\u{00b2}",
            3 => "\u{00b3}",
            4 => "\u{2074}",
            5 => "\u{2075}",
            6 => "\u{2076}",
            7 => "\u{2077}",
            8 => "\u{2078}",
            _ => "\u{2079}",
        }
    }
}

/// The single-bit mask standing for digit `d`.
pub open spec fn digit_bit(d: int) -> u16 {
    1u16 << ((d - 1) as u16)
}

/// Whether bit `b` of `n` is set.
pub open spec fn bit_at(n: u16, b: u16) -> bool {
    (n >> b) & 1u16 == 1u16
}

} // verus!
