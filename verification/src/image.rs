//! The picture: a grid of colours, and its text in the plain PPM format.

use vstd::prelude::*;
use crate::color::Color;

verus! {

/// The greatest level of a channel in the PPM text.
pub const MAX_VAL: i32 = 255;

/// The red, green and blue level of one pixel, as whole numbers.
pub type Levels = (i32, i32, i32);

/// The decimal digits of a natural number, as ASCII.
pub open spec fn digits(n: nat) -> Seq<u8>
    decreases n,
{
    if n < 10 {
        seq![(48 + n) as u8]
    } else {
        digits(n / 10).push((48 + n % 10) as u8)
    }
}

/// A whole number in decimal, with a minus sign before a negative one.
pub open spec fn decimal(n: int) -> Seq<u8> {
    if n < 0 {
        seq![45u8] + digits((-n) as nat)
    } else {
        digits(n as nat)
    }
}

/// One pixel: its three levels, each followed by a space.
pub open spec fn pixel_text(p: Levels) -> Seq<u8> {
    decimal(p.0 as int) + seq![32u8] + decimal(p.1 as int) + seq![32u8] + decimal(p.2 as int)
        + seq![32u8]
}

/// The pixels of a row, one after the other.
pub open spec fn pixels_text(row: Seq<Levels>) -> Seq<u8>
    decreases row.len(),
{
    if row.len() == 0 {
        Seq::empty()
    } else {
        pixels_text(row.drop_last()) + pixel_text(row.last())
    }
}

/// The rows from the last to the first, each ended by a line feed.
pub open spec fn rows_text(rows: Seq<Vec<Levels>>) -> Seq<u8>
    decreases rows.len(),
{
    if rows.len() == 0 {
        Seq::empty()
    } else {
        pixels_text(rows.last()@) + seq![10u8] + rows_text(rows.drop_last())
    }
}

/// The first three lines: the format's name, the width and the height, and
/// the greatest level.
pub open spec fn header_text(width: usize, height: usize) -> Seq<u8> {
    seq![80u8, 51u8, 10u8] + decimal(width as int) + seq![32u8] + decimal(height as int) + seq![
        10u8,
    ] + decimal(MAX_VAL as int) + seq![10u8]
}

/// The whole text: the header, then the rows from the last to the first.
pub open spec fn ppm_text(width: usize, height: usize, rows: Seq<Vec<Levels>>) -> Seq<u8> {
    header_text(width, height) + rows_text(rows)
}

fn push_digits(out: &mut Vec<u8>, n: u64)
    ensures
        final(out)@ == old(out)@ + digits(n as nat),
    decreases n,
{
    if n < 10 {
        out.push(48 + n as u8);
        proof {
            assert(final(out)@ =~= old(out)@ + digits(n as nat));
        }
    } else {
        push_digits(out, n / 10);
        out.push(48 + (n % 10) as u8);
        proof {
            assert(final(out)@ =~= old(out)@ + digits(n as nat));
        }
    }
}

fn push_decimal(out: &mut Vec<u8>, n: i64)
    requires
        n > i64::MIN,
    ensures
        final(out)@ == old(out)@ + decimal(n as int),
{
    if n < 0 {
        out.push(45);
        push_digits(out, (-n) as u64);
        proof {
            assert(final(out)@ =~= old(out)@ + decimal(n as int));
        }
    } else {
        push_digits(out, n as u64);
    }
}

fn push_size(out: &mut Vec<u8>, n: usize)
    ensures
        final(out)@ == old(out)@ + decimal(n as int),
{
    push_digits(out, n as u64);
}

fn push_pixel(out: &mut Vec<u8>, p: Levels)
    ensures
        final(out)@ == old(out)@ + pixel_text(p),
{
    push_decimal(out, p.0 as i64);
    out.push(32);
    push_decimal(out, p.1 as i64);
    out.push(32);
    push_decimal(out, p.2 as i64);
    out.push(32);
    proof {
        assert(final(out)@ =~= old(out)@ + pixel_text(p));
    }
}

/// A grid of colours, `height` rows of `width` each.
pub struct Image {
    pub width: usize,
    pub height: usize,
    pub buffer: Vec<Vec<Color>>,
}

impl Image {
    /// The buffer has `height` rows of `width` colours each.
    pub open spec fn well_formed(&self) -> bool {
        &&& self.buffer@.len() == self.height
        &&& forall|y: int| 0 <= y < self.height ==> (#[trigger] self.buffer@[y])@.len() == self.width
    }

    /// The colour at column `x` of row `y`.
    pub open spec fn at(&self, x: int, y: int) -> Color {
        self.buffer@[y]@[x]
    }

    /// A picture that is black all over.
    pub fn new(width: usize, height: usize) -> (img: Image)
        ensures
            img.width == width,
            img.height == height,
            img.well_formed(),
            forall|x: int, y: int|
                0 <= x < width && 0 <= y < height ==> img.at(x, y) == Color::black(),
    {
        let mut buffer: Vec<Vec<Color>> = Vec::new();
        let mut y: usize = 0;
        while y < height
            invariant
                y <= height,
                buffer@.len() == y,
                forall|j: int| 0 <= j < y ==> (#[trigger] buffer@[j])@.len() == width,
                forall|i: int, j: int|
                    0 <= i < width && 0 <= j < y ==> buffer@[j]@[i] == Color::black(),
            decreases height - y,
        {
            let mut row: Vec<Color> = Vec::new();
            let mut x: usize = 0;
            while x < width
                invariant
                    x <= width,
                    row@.len() == x,
                    forall|i: int| 0 <= i < x ==> row@[i] == Color::black(),
                decreases width - x,
            {
                row.push(Color::black());
                x += 1;
            }
            buffer.push(row);
            y += 1;
        }
        Image { width, height, buffer }
    }

    /// Puts a colour at column `x` of row `y`.
    pub fn color(&mut self, x: usize, y: usize, col: Color)
        requires
            old(self).well_formed(),
            x < old(self).width,
            y < old(self).height,
        ensures
            final(self).well_formed(),
            final(self).width == old(self).width,
            final(self).height == old(self).height,
            final(self).at(x as int, y as int) == col,
            forall|i: int, j: int|
                0 <= i < old(self).width && 0 <= j < old(self).height && (i != x || j != y)
                    ==> final(self).at(i, j) == old(self).at(i, j),
    {
        let mut row = self.buffer.remove(y);
        row.set(x, col);
        self.buffer.insert(y, row);
    }

    /// The picture in the plain PPM format, with the levels that the caller
    /// has computed from the colours: `levels` row by row as the buffer
    /// is. The rows are written from the last to the first.
    pub fn to_ppm(&self, levels: &Vec<Vec<Levels>>) -> (text: Vec<u8>)
        ensures
            text@ == ppm_text(self.width, self.height, levels@),
    {
        let mut out: Vec<u8> = Vec::new();
        out.push(80);
        out.push(51);
        out.push(10);
        push_size(&mut out, self.width);
        out.push(32);
        push_size(&mut out, self.height);
        out.push(10);
        push_decimal(&mut out, MAX_VAL as i64);
        out.push(10);
        proof {
            assert(out@ =~= header_text(self.width, self.height));
            assert(levels@.take(levels.len() as int) =~= levels@);
        }
        let mut y: usize = levels.len();
        while y > 0
            invariant
                y <= levels.len(),
                out@ + rows_text(levels@.take(y as int)) == ppm_text(
                    self.width,
                    self.height,
                    levels@,
                ),
            decreases y,
        {
            y -= 1;
            let row = &levels[y];
            let ghost before = out@;
            let mut x: usize = 0;
            while x < row.len()
                invariant
                    x <= row.len(),
                    out@ == before + pixels_text(row@.take(x as int)),
                decreases row.len() - x,
            {
                proof {
                    assert(row@.take(x + 1).drop_last() =~= row@.take(x as int));
                }
                push_pixel(&mut out, row[x]);
                x += 1;
                proof {
                    assert(out@ =~= before + pixels_text(row@.take(x as int)));
                }
            }
            out.push(10);
            proof {
                assert(row@.take(row.len() as int) =~= row@);
                let rows = levels@.take(y + 1);
                assert(rows.last() == levels@[y as int]);
                assert(rows.drop_last() =~= levels@.take(y as int));
                assert(out@ + rows_text(levels@.take(y as int)) =~= before + rows_text(rows));
            }
        }
        proof {
            assert(rows_text(levels@.take(0)) =~= Seq::<u8>::empty());
            assert(out@ + Seq::<u8>::empty() =~= out@);
        }
        out
    }
}

} // verus!
