//! One snapshot of the 5x5 LED matrix.
use vstd::prelude::*;

verus! {

/// Number of LEDs in one frame.
pub const LED_COUNT: usize = 25;

/// Side length of the square matrix.
pub const SIDE: usize = 5;

/// The row of the LED stored at index `i`.
pub open spec fn row_of(i: int) -> int {
    i % 5
}

/// The column of the LED stored at index `i`.
pub open spec fn col_of(i: int) -> int {
    i / 5
}

/// Every value `v` replaced by `255 - v`.
pub open spec fn inverted(s: Seq<u8>) -> Seq<u8> {
    s.map_values(|v: u8| (255 - v) as u8)
}

/// Brightness grid of 25 LEDs; index `i` sits at row `i % 5`, column `i / 5`.
#[derive(Debug, Clone, Copy, PartialEq, Eq)]
pub struct Frame {
    pub leds: [u8; 25],
}

impl Frame {
    /// The brightness values in storage order.
    pub open spec fn view(&self) -> Seq<u8> {
        self.leds@
    }

    /// A fully lit frame.
    pub fn new() -> (r: Frame)
        ensures
            r.view() == Seq::new(25, |i: int| 255u8),
    {
        let r = Frame { leds: [255u8; 25] };
        assert(r.view() =~= Seq::new(25, |i: int| 255u8));
        r
    }

    /// A frame holding exactly the given values.
    pub fn with_values(leds: [u8; 25]) -> (r: Frame)
        ensures
            r.leds == leds,
            r.view() == leds@,
    {
        Frame { leds }
    }

    /// Replaces every value `v` by `255 - v`.
    pub fn invert(&mut self)
        ensures
            final(self).view() == inverted(old(self).view()),
    {
        let mut i: usize = 0;
        while i < LED_COUNT
            invariant
                i <= 25,
                self.leds@.len() == 25,
                forall|k: int| 0 <= k < i ==> self.leds@[k] == 255 - old(self).leds@[k],
                forall|k: int| i <= k < 25 ==> self.leds@[k] == old(self).leds@[k],
            decreases 25 - i,
        {
            let v = self.leds[i];
            self.leds[i] = 255 - v;
            i += 1;
        }
        assert(self.view() =~= inverted(old(self).view()));
    }

    /// Sets every LED of row `row` (indices `i` with `i % 5 == row`) to `val`;
    /// a row outside `0..5` matches no LED.
    pub fn set_row(&mut self, row: usize, val: u8)
        ensures
            final(self).view().len() == 25,
            forall|i: int|
                0 <= i < 25 ==> final(self).view()[i] == if row_of(i) == row as int {
                    val
                } else {
                    old(self).view()[i]
                },
    {
        let mut i: usize = 0;
        while i < LED_COUNT
            invariant
                i <= 25,
                self.leds@.len() == 25,
                forall|k: int|
                    0 <= k < i ==> self.leds@[k] == if row_of(k) == row as int {
                        val
                    } else {
                        old(self).leds@[k]
                    },
                forall|k: int| i <= k < 25 ==> self.leds@[k] == old(self).leds@[k],
            decreases 25 - i,
        {
            if i % SIDE == row {
                self.leds[i] = val;
            }
            i += 1;
        }
    }

    /// Sets every LED of column `col` (indices `i` with `i / 5 == col`) to
    /// `val`; a column outside `0..5` matches no LED.
    pub fn set_col(&mut self, col: usize, val: u8)
        ensures
            final(self).view().len() == 25,
            forall|i: int|
                0 <= i < 25 ==> final(self).view()[i] == if col_of(i) == col as int {
                    val
                } else {
                    old(self).view()[i]
                },
    {
        let mut i: usize = 0;
        while i < LED_COUNT
            invariant
                i <= 25,
                self.leds@.len() == 25,
                forall|k: int|
                    0 <= k < i ==> self.leds@[k] == if col_of(k) == col as int {
                        val
                    } else {
                        old(self).leds@[k]
                    },
                forall|k: int| i <= k < 25 ==> self.leds@[k] == old(self).leds@[k],
            decreases 25 - i,
        {
            if i / SIDE == col {
                self.leds[i] = val;
            }
            i += 1;
        }
    }

    /// Sets all 25 LEDs to `val`.
    pub fn set_all(&mut self, val: u8)
        ensures
            final(self).view() == Seq::new(25, |i: int| val),
    {
        self.leds = [val; 25];
        assert(self.view() =~= Seq::new(25, |i: int| val));
    }
}

/// Inverting twice gives back the values one started from.
pub proof fn lemma_invert_twice(s: Seq<u8>)
    ensures
        inverted(inverted(s)) == s,
{
    assert(inverted(inverted(s)) =~= s);
}

} // verus!
