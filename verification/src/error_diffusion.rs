//! An error-diffusion buffer for one channel.
//!
//! The buffer holds three rows of accumulated error: one for the scanline
//! being processed and one for each of the two scanlines below it. For every
//! pixel, in raster order, the caller first asks how the channel value is to
//! be adjusted by the error that has reached the pixel, and then hands back
//! the residual, which is spread over the twelve neighbours that are still to
//! come. Between two scanlines the rows are rotated.
//!
//! A row has two cells of margin on either side, so that the kernel, five
//! cells wide, never leaves the row. Errors are kept in units of 1/32 of a
//! channel step.
use vstd::prelude::*;

verus! {

/// What an error-diffusion buffer holds: the column of the pixel that comes
/// next, and the three rows of accumulated error. Cell `c` of a row belongs
/// to column `c - 2`.
pub struct Diffusion {
    pub column: int,
    pub row1: Seq<int>,
    pub row2: Seq<int>,
    pub row3: Seq<int>,
}

/// What the cell `offset` columns to the right of the current pixel, in the
/// current scanline, receives of a residual `e`: 8 and 4 shares for the two
/// cells that follow the pixel.
pub open spec fn share1(offset: int, e: int) -> int {
    if offset == 1 {
        8 * e
    } else if offset == 2 {
        4 * e
    } else {
        0
    }
}

/// What a cell of the next scanline receives: 2, 4, 8, 4, 2 shares for the
/// five cells centred below the pixel.
pub open spec fn share2(offset: int, e: int) -> int {
    if offset == 0 {
        8 * e
    } else if offset == 1 || offset == -1 {
        4 * e
    } else if offset == 2 || offset == -2 {
        2 * e
    } else {
        0
    }
}

/// What a cell of the scanline after the next receives: 1, 2, 4, 2, 1 shares
/// for the five cells centred below the pixel.
pub open spec fn share3(offset: int, e: int) -> int {
    if offset == 0 {
        4 * e
    } else if offset == 1 || offset == -1 {
        2 * e
    } else if offset == 2 || offset == -2 {
        e
    } else {
        0
    }
}

/// The shares that cell `c` of the current row can have received from the
/// pixels before cell `at`.
pub open spec fn received1(c: int, at: int) -> int {
    (if c - 1 < at {
        8int
    } else {
        0
    }) + (if c - 2 < at {
        4int
    } else {
        0
    })
}

/// The shares that cell `c` of the next row can have received from the pixels
/// before cell `at`.
pub open spec fn received2(c: int, at: int) -> int {
    (if c + 2 < at {
        2int
    } else {
        0
    }) + (if c + 1 < at {
        4int
    } else {
        0
    }) + (if c < at {
        8int
    } else {
        0
    }) + (if c - 1 < at {
        4int
    } else {
        0
    }) + (if c - 2 < at {
        2int
    } else {
        0
    })
}

/// The shares that cell `c` of the row after the next can have received from
/// the pixels before cell `at`.
pub open spec fn received3(c: int, at: int) -> int {
    (if c + 2 < at {
        1int
    } else {
        0
    }) + (if c + 1 < at {
        2int
    } else {
        0
    }) + (if c < at {
        4int
    } else {
        0
    }) + (if c - 1 < at {
        2int
    } else {
        0
    }) + (if c - 2 < at {
        1int
    } else {
        0
    })
}

/// An error of at most `shares` shares of a full channel step, either way.
pub open spec fn holds(error: int, shares: int) -> bool {
    -255 * shares <= error <= 255 * shares
}

/// A row of `len` cells without error.
pub open spec fn blank(len: nat) -> Seq<int> {
    Seq::new(len, |c: int| 0int)
}

/// The sum of the cells of a row.
pub open spec fn row_total(row: Seq<int>) -> int
    decreases row.len(),
{
    if row.len() == 0 {
        0
    } else {
        row_total(row.drop_last()) + row.last()
    }
}

impl Diffusion {
    /// The buffer at the start of an image `width` pixels wide.
    pub open spec fn fresh(width: nat) -> Diffusion {
        Diffusion {
            column: 0,
            row1: blank(width + 4),
            row2: blank(width + 4),
            row3: blank(width + 4),
        }
    }

    /// The width of the image in pixels.
    pub open spec fn width(self) -> int {
        self.row1.len() - 4
    }

    /// The rows are of one length, the column lies in the scanline or just
    /// behind it, and no cell holds more error than the pixels processed so
    /// far can have sent it: 30 shares from the two scanlines above, and
    /// what the kernel gives from this one.
    pub open spec fn well_formed(self) -> bool {
        &&& self.row1.len() >= 4
        &&& self.row2.len() == self.row1.len()
        &&& self.row3.len() == self.row1.len()
        &&& 0 <= self.column <= self.width()
        &&& forall|c: int|
            0 <= c < self.row1.len() ==> {
                &&& holds(#[trigger] self.row1[c], 30 + received1(c, self.column + 2))
                &&& holds(self.row2[c], 10 + received2(c, self.column + 2))
                &&& holds(self.row3[c], received3(c, self.column + 2))
            }
    }

    /// The error that has reached the pixel that comes next, in units of 1/32.
    pub open spec fn pending(self) -> int {
        self.row1[self.column + 2]
    }

    /// A channel value with the pending error added: the error is divided by
    /// 32, rounding down, and the sum is clamped to 0..=255.
    pub open spec fn adjusted(self, color: u8) -> u8 {
        let v = color + self.pending() / 32;
        if v < 0 {
            0
        } else if v > 255 {
            255
        } else {
            v as u8
        }
    }

    /// The buffer after the residual `value - chosen` of the pixel is
    /// spread over its neighbours, each cell adding its share to what it
    /// holds, and the column has moved on by one.
    pub open spec fn propagated(self, value: u8, chosen: u8) -> Diffusion {
        let e = value - chosen;
        let at = self.column + 2;
        Diffusion {
            column: self.column + 1,
            row1: Seq::new(self.row1.len(), |c: int| self.row1[c] + share1(c - at, e)),
            row2: Seq::new(self.row2.len(), |c: int| self.row2[c] + share2(c - at, e)),
            row3: Seq::new(self.row3.len(), |c: int| self.row3[c] + share3(c - at, e)),
        }
    }

    /// The buffer at the start of the next scanline: the second row has
    /// become the first, the third the second, and the third is blank.
    pub open spec fn advanced(self) -> Diffusion {
        Diffusion { column: 0, row1: self.row2, row2: self.row3, row3: blank(self.row1.len()) }
    }

    /// All the error that the buffer holds.
    pub open spec fn total(self) -> int {
        row_total(self.row1) + row_total(self.row2) + row_total(self.row3)
    }

    /// A fresh buffer is well formed and holds no error.
    pub proof fn lemma_fresh(width: nat)
        ensures
            Diffusion::fresh(width).well_formed(),
            Diffusion::fresh(width).width() == width,
            Diffusion::fresh(width).total() == 0,
    {
        lemma_blank_total(width + 4);
    }

    /// Spreading a residual keeps a buffer well formed, as long as the pixel
    /// lies in the scanline.
    pub proof fn lemma_propagated(self, value: u8, chosen: u8)
        requires
            self.well_formed(),
            self.column < self.width(),
        ensures
            self.propagated(value, chosen).well_formed(),
            self.propagated(value, chosen).width() == self.width(),
            self.propagated(value, chosen).column == self.column + 1,
    {
        let next = self.propagated(value, chosen);
        assert forall|c: int| 0 <= c < next.row1.len() implies {
            &&& holds(#[trigger] next.row1[c], 30 + received1(c, next.column + 2))
            &&& holds(next.row2[c], 10 + received2(c, next.column + 2))
            &&& holds(next.row3[c], received3(c, next.column + 2))
        } by {
            assert(holds(self.row1[c], 30 + received1(c, self.column + 2)));
        }
    }

    /// Going on to the next scanline keeps a buffer well formed.
    pub proof fn lemma_advanced(self)
        requires
            self.well_formed(),
        ensures
            self.advanced().well_formed(),
            self.advanced().width() == self.width(),
            self.advanced().column == 0,
    {
        let next = self.advanced();
        assert forall|c: int| 0 <= c < next.row1.len() implies {
            &&& holds(#[trigger] next.row1[c], 30 + received1(c, next.column + 2))
            &&& holds(next.row2[c], 10 + received2(c, next.column + 2))
            &&& holds(next.row3[c], received3(c, next.column + 2))
        } by {
            assert(holds(self.row1[c], 30 + received1(c, self.column + 2)));
        }
    }

    /// Nothing of a residual is lost: the twelve shares that the neighbours
    /// receive come to 42, so the error in the buffer grows by 42 times the
    /// residual, and by nothing where the chosen value is the pixel's own.
    pub proof fn lemma_residual_conserved(self, value: u8, chosen: u8)
        requires
            self.well_formed(),
            self.column < self.width(),
        ensures
            self.propagated(value, chosen).total() == self.total() + 42 * (value - chosen),
            value == chosen ==> self.propagated(value, chosen).total() == self.total(),
    {
        let e = value - chosen;
        let at = self.column + 2;
        let next = self.propagated(value, chosen);
        let r1 = self.row1.update(at + 1, self.row1[at + 1] + 8 * e).update(
            at + 2,
            self.row1[at + 2] + 4 * e,
        );
        lemma_total_update(self.row1, at + 1, self.row1[at + 1] + 8 * e);
        lemma_total_update(
            self.row1.update(at + 1, self.row1[at + 1] + 8 * e),
            at + 2,
            self.row1[at + 2] + 4 * e,
        );
        assert(next.row1 =~= r1);
        lemma_total_spread(self.row2, at, 2 * e, 4 * e, 8 * e, 4 * e, 2 * e);
        assert(next.row2 =~= spread(self.row2, at, 2 * e, 4 * e, 8 * e, 4 * e, 2 * e));
        lemma_total_spread(self.row3, at, e, 2 * e, 4 * e, 2 * e, e);
        assert(next.row3 =~= spread(self.row3, at, e, 2 * e, 4 * e, 2 * e, e));
    }
}

/// A row with five amounts added to the five cells centred on `at`.
pub open spec fn spread(row: Seq<int>, at: int, a: int, b: int, c: int, d: int, e: int) -> Seq<int> {
    row.update(at - 2, row[at - 2] + a).update(at - 1, row[at - 1] + b).update(at, row[at] + c).update(
        at + 1,
        row[at + 1] + d,
    ).update(at + 2, row[at + 2] + e)
}

proof fn lemma_blank_total(len: nat)
    ensures
        row_total(blank(len)) == 0,
    decreases len,
{
    if len > 0 {
        assert(blank(len).drop_last() =~= blank((len - 1) as nat));
        lemma_blank_total((len - 1) as nat);
    }
}

proof fn lemma_total_update(row: Seq<int>, at: int, value: int)
    requires
        0 <= at < row.len(),
    ensures
        row_total(row.update(at, value)) == row_total(row) - row[at] + value,
    decreases row.len(),
{
    if at == row.len() - 1 {
        assert(row.update(at, value).drop_last() =~= row.drop_last());
    } else {
        assert(row.update(at, value).drop_last() =~= row.drop_last().update(at, value));
        lemma_total_update(row.drop_last(), at, value);
    }
}

proof fn lemma_total_spread(row: Seq<int>, at: int, a: int, b: int, c: int, d: int, e: int)
    requires
        2 <= at,
        at + 2 < row.len(),
    ensures
        row_total(spread(row, at, a, b, c, d, e)) == row_total(row) + a + b + c + d + e,
{
    let s1 = row.update(at - 2, row[at - 2] + a);
    let s2 = s1.update(at - 1, row[at - 1] + b);
    let s3 = s2.update(at, row[at] + c);
    let s4 = s3.update(at + 1, row[at + 1] + d);
    lemma_total_update(row, at - 2, row[at - 2] + a);
    lemma_total_update(s1, at - 1, row[at - 1] + b);
    lemma_total_update(s2, at, row[at] + c);
    lemma_total_update(s3, at + 1, row[at + 1] + d);
    lemma_total_update(s4, at + 2, row[at + 2] + e);
}

/// The cells of a row as integers.
pub open spec fn cells(row: Seq<i32>) -> Seq<int> {
    Seq::new(row.len(), |c: int| row[c] as int)
}

/// An error-diffusion buffer for one channel of an image.
#[derive(Debug)]
pub struct ErrorDiffusion {
    index: usize,
    error_row1: Vec<i32>,
    error_row2: Vec<i32>,
    error_row3: Vec<i32>,
}

impl View for ErrorDiffusion {
    type V = Diffusion;

    closed spec fn view(&self) -> Diffusion {
        Diffusion {
            column: self.index - 2,
            row1: cells(self.error_row1@),
            row2: cells(self.error_row2@),
            row3: cells(self.error_row3@),
        }
    }
}

fn blank_row(len: usize) -> (row: Vec<i32>)
    ensures
        cells(row@) == blank(len as nat),
{
    let mut row: Vec<i32> = Vec::new();
    let mut i: usize = 0;
    while i < len
        invariant
            i <= len,
            row@.len() == i,
            forall|c: int| 0 <= c < i ==> row@[c] == 0,
        decreases len - i,
    {
        row.push(0);
        i += 1;
    }
    assert(cells(row@) =~= blank(len as nat));
    row
}

fn add_to(row: &mut Vec<i32>, at: usize, amount: i32)
    requires
        at < old(row)@.len(),
        i32::MIN <= old(row)@[at as int] + amount <= i32::MAX,
    ensures
        final(row)@ == old(row)@.update(at as int, (old(row)@[at as int] + amount) as i32),
{
    let value = row[at];
    row.set(at, value + amount);
}

impl ErrorDiffusion {
    /// A buffer for an image `width` pixels wide, without error, at the
    /// first column.
    pub fn new(width: u32) -> (engine: ErrorDiffusion)
        requires
            width <= u32::MAX - 4,
        ensures
            engine@ == Diffusion::fresh(width as nat),
            engine@.well_formed(),
    {
        ErrorDiffusion::with_width(width as usize)
    }

    /// A buffer for an image `width` pixels wide, for widths beyond 32 bits.
    pub fn with_width(width: usize) -> (engine: ErrorDiffusion)
        requires
            width <= usize::MAX - 4,
        ensures
            engine@ == Diffusion::fresh(width as nat),
            engine@.well_formed(),
    {
        let new_width = width + 4;
        let buf1 = blank_row(new_width);
        let buf2 = blank_row(new_width);
        let buf3 = blank_row(new_width);
        proof {
            Diffusion::lemma_fresh(width as nat);
        }
        ErrorDiffusion { index: 2, error_row1: buf1, error_row2: buf2, error_row3: buf3 }
    }

    /// The width of the image in pixels.
    pub fn width(&self) -> (width: usize)
        requires
            self@.well_formed(),
        ensures
            width == self@.width(),
    {
        self.error_row1.len() - 4
    }

    /// The column of the pixel that comes next. It equals the width once the
    /// scanline is done.
    pub fn column(&self) -> (column: usize)
        requires
            self@.well_formed(),
        ensures
            column == self@.column,
    {
        self.index - 2
    }

    /// The channel value of the pixel that comes next, adjusted by the error
    /// that has reached it. This value is the one to look up in the palette.
    /// The buffer is not changed.
    #[inline]
    pub fn adjust(&mut self, color: u8) -> (adjusted: u8)
        requires
            old(self)@.well_formed(),
        ensures
            final(self)@ == old(self)@,
            adjusted == old(self)@.adjusted(color),
    {
        let index = self.index;
        let stored_error: i32 = self.error_row1[index];
        assert(cells(self.error_row1@)[index as int] == stored_error);
        assert(holds(self@.row1[index as int], 30 + received1(index as int, self@.column + 2)));
        assert(stored_error >> 5 == stored_error / 32) by (bit_vector);
        let adjust_color: i32 = color as i32 + (stored_error >> 5);
        if adjust_color < 0 {
            0
        } else if adjust_color > 255 {
            255
        } else {
            adjust_color as u8
        }
    }

    /// Spreads the residual `org_color - fixed_color` of the pixel over its
    /// neighbours and moves on to the next column. `fixed_color` is the value
    /// that the palette gave for the pixel.
    #[inline]
    pub fn calculate(&mut self, org_color: u8, fixed_color: u8)
        requires
            old(self)@.well_formed(),
            old(self)@.column < old(self)@.width(),
        ensures
            final(self)@ == old(self)@.propagated(org_color, fixed_color),
            final(self)@.well_formed(),
            final(self)@.width() == old(self)@.width(),
            final(self)@.column == old(self)@.column + 1,
    {
        let index = self.index;
        let ghost before = self@;
        let ghost r1 = self.error_row1@;
        let ghost r2 = self.error_row2@;
        let ghost r3 = self.error_row3@;
        let error_fraction: i32 = (org_color as i32) - (fixed_color as i32);
        let error_fraction2: i32 = error_fraction * 2;
        let error_fraction4: i32 = error_fraction * 4;
        let error_fraction8: i32 = error_fraction * 8;
        let len = self.error_row1.len();
        proof {
            before.lemma_propagated(org_color, fixed_color);
            assert(2 <= index && index + 2 < len);
            assert forall|c: int| 0 <= c < len implies holds(#[trigger] r1[c] as int, 42) by {
                assert(holds(before.row1[c], 30 + received1(c, before.column + 2)));
                assert(before.row1[c] == r1[c]);
            }
            assert forall|c: int| 0 <= c < len implies holds(#[trigger] r2[c] as int, 30) by {
                assert(holds(before.row1[c], 30 + received1(c, before.column + 2)));
                assert(before.row2[c] == r2[c]);
            }
            assert forall|c: int| 0 <= c < len implies holds(#[trigger] r3[c] as int, 10) by {
                assert(holds(before.row1[c], 30 + received1(c, before.column + 2)));
                assert(before.row3[c] == r3[c]);
            }
            assert(holds(r1[index + 1] as int, 42) && holds(r1[index + 2] as int, 42));
            assert(holds(r2[index - 2] as int, 30) && holds(r2[index - 1] as int, 30));
            assert(holds(r2[index as int] as int, 30) && holds(r2[index + 1] as int, 30));
            assert(holds(r2[index + 2] as int, 30) && holds(r3[index - 2] as int, 10));
            assert(holds(r3[index - 1] as int, 10) && holds(r3[index as int] as int, 10));
            assert(holds(r3[index + 1] as int, 10) && holds(r3[index + 2] as int, 10));
        }

        add_to(&mut self.error_row1, index + 1, error_fraction8);
        add_to(&mut self.error_row1, index + 2, error_fraction4);

        add_to(&mut self.error_row2, index - 2, error_fraction2);
        add_to(&mut self.error_row2, index - 1, error_fraction4);
        add_to(&mut self.error_row2, index, error_fraction8);
        add_to(&mut self.error_row2, index + 1, error_fraction4);
        add_to(&mut self.error_row2, index + 2, error_fraction2);

        add_to(&mut self.error_row3, index - 2, error_fraction);
        add_to(&mut self.error_row3, index - 1, error_fraction2);
        add_to(&mut self.error_row3, index, error_fraction4);
        add_to(&mut self.error_row3, index + 1, error_fraction2);
        add_to(&mut self.error_row3, index + 2, error_fraction);

        self.index += 1;
        proof {
            let after = before.propagated(org_color, fixed_color);
            assert(self@.row1 =~= after.row1);
            assert(self@.row2 =~= after.row2);
            assert(self@.row3 =~= after.row3);
        }
    }

    /// Goes on to the next scanline: back to the first column, the second
    /// row becomes the first, the third the second, and the old first row,
    /// blanked, the third.
    #[inline]
    pub fn next_row(&mut self)
        requires
            old(self)@.well_formed(),
        ensures
            final(self)@ == old(self)@.advanced(),
            final(self)@.well_formed(),
            final(self)@.width() == old(self)@.width(),
            final(self)@.column == 0,
    {
        proof {
            self@.lemma_advanced();
        }
        self.index = 2;
        std::mem::swap(&mut self.error_row1, &mut self.error_row2);
        std::mem::swap(&mut self.error_row2, &mut self.error_row3);
        let len = self.error_row3.len();
        let mut i: usize = 0;
        while i < len
            invariant
                i <= len,
                len == self.error_row3@.len(),
                forall|c: int| 0 <= c < i ==> self.error_row3@[c] == 0,
                self.index == 2,
                self.error_row1@ == old(self).error_row2@,
                self.error_row2@ == old(self).error_row3@,
                len == old(self).error_row1@.len(),
            decreases len - i,
        {
            self.error_row3.set(i, 0);
            i += 1;
        }
        assert(self@.row3 =~= blank(len as nat));
    }
}

} // verus!
