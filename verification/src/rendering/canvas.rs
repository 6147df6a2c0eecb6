//! Virtual canvas to which the final image will be rendered.

use vstd::prelude::*;

use vstd::std_specs::iter::IteratorSpec;

use super::ppm::{encode_ppm, ppm_text, Rgb888};

verus! {

broadcast use vstd::std_specs::slice::axiom_spec_slice_iter;

/// A canvas is a rectangular grid of pixels, stored row by row, top to bottom and left to right.
#[derive(Debug, Clone)]
pub struct Canvas<P> {
    grid: Vec<P>,
    width: u32,
    height: u32,
}

/// The position of pixel `(x,y)` in the row-by-row storage of a canvas `width` pixels wide.
pub open spec fn pixel_index(width: nat, x: nat, y: nat) -> nat {
    y * width + x
}

impl<P> Canvas<P> {
    /// The grid holds exactly `width * height` pixels, a number that fits in `u32`.
    pub closed spec fn wf(self) -> bool {
        &&& self.grid@.len() == self.width * self.height
        &&& self.width * self.height <= u32::MAX
    }

    /// The number of pixel columns.
    pub closed spec fn cols(self) -> nat {
        self.width as nat
    }

    /// The number of pixel rows.
    pub closed spec fn rows(self) -> nat {
        self.height as nat
    }

    /// The pixels, row by row.
    pub closed spec fn pixels(self) -> Seq<P> {
        self.grid@
    }

    /// The pixel at `(x,y)`.
    pub open spec fn pixel(self, x: nat, y: nat) -> P {
        self.pixels()[pixel_index(self.cols(), x, y) as int]
    }

    /// Returns the width of the canvas.
    pub fn width(&self) -> (w: u32)
        ensures
            w == self.cols(),
    {
        self.width
    }

    /// Returns the height of the canvas.
    pub fn height(&self) -> (h: u32)
        ensures
            h == self.rows(),
    {
        self.height
    }

    /// Returns an iterator over the pixels of this canvas.
    ///
    /// The canvas is traversed top-to-bottom, left-to-right.
    pub fn iter(&self) -> (it: std::slice::Iter<'_, P>)
        ensures
            it.remaining() == self.pixels().map_values(|p: P| &p),
    {
        let it = self.grid.as_slice().iter();
        proof {
            assert(self.grid@.as_ref() =~= self.pixels().map_values(|p: P| &p));
        }
        it
    }

    /// Returns the pixels of this canvas for modification, in place.
    ///
    /// The canvas is traversed top-to-bottom, left-to-right.
    pub fn iter_mut(&mut self) -> (pixels: &mut [P])
        requires
            old(self).wf(),
        ensures
            pixels@ == old(self).pixels(),
            final(self).pixels() == final(pixels)@,
            final(self).cols() == old(self).cols(),
            final(self).rows() == old(self).rows(),
            final(pixels)@.len() == pixels@.len() ==> final(self).wf(),
    {
        self.grid.as_mut_slice()
    }

    /// Returns the `i`-th scanline of this canvas, or `None` if the canvas has no such row.
    ///
    /// A canvas without columns has an empty scanline at every row index.
    pub fn scanline(&self, i: u32) -> (line: Option<&[P]>)
        requires
            self.wf(),
            i + 1 <= u32::MAX,
            (i + 1) * self.cols() <= u32::MAX,
        ensures
            match line {
                Some(l) => {
                    &&& (i < self.rows() || self.cols() == 0)
                    &&& l@ == self.pixels().subrange(
                        pixel_index(self.cols(), 0, i as nat) as int,
                        pixel_index(self.cols(), 0, (i + 1) as nat) as int,
                    )
                },
                None => i >= self.rows() && self.cols() > 0,
            },
            line matches Some(l) ==> l@ == self.pixels().subrange(
                i * self.cols(),
                (i + 1) * self.cols(),
            ),
    {
        proof {
            assert(i * self.width <= (i + 1) * self.width) by (nonlinear_arith);
            if i < self.height {
                assert((i + 1) * self.width <= self.width * self.height) by (nonlinear_arith)
                    requires
                        i < self.height,
                ;
            } else if self.width > 0 {
                assert((i + 1) * self.width > self.width * self.height) by (nonlinear_arith)
                    requires
                        i >= self.height,
                        self.width > 0,
                ;
            }
        }
        let start = (i * self.width) as usize;
        let end = ((i + 1) * self.width) as usize;
        if end <= self.grid.len() {
            let line = &self.grid.as_slice()[start..end];
            Some(line)
        } else {
            None
        }
    }

    /// Sets the pixel at position `(x,y)` to the specified color.
    ///
    /// The position must lie within the canvas.
    pub fn put(&mut self, x: u32, y: u32, c: P)
        requires
            old(self).wf(),
            x < old(self).cols(),
            y < old(self).rows(),
        ensures
            final(self).wf(),
            final(self).cols() == old(self).cols(),
            final(self).rows() == old(self).rows(),
            final(self).pixels() == old(self).pixels().update(
                pixel_index(old(self).cols(), x as nat, y as nat) as int,
                c,
            ),
            final(self).pixels()[y * old(self).cols() + x] == c,
            forall|k: int|
                0 <= k < old(self).pixels().len() && k != y * old(self).cols() + x
                    ==> #[trigger] final(self).pixels()[k] == old(self).pixels()[k],
    {
        proof {
            assert(y * self.width + x < self.width * self.height) by (nonlinear_arith)
                requires
                    x < self.width,
                    y < self.height,
            ;
        }
        let idx = (y * self.width + x) as usize;
        self.grid.set(idx, c);
    }

    /// Returns the color of the pixel at position `(x,y)`, or `None` if the position is not
    /// within the canvas.
    pub fn get(&self, x: u32, y: u32) -> (p: Option<&P>)
        requires
            self.wf(),
        ensures
            p == if x < self.cols() && y < self.rows() {
                Some(&self.pixel(x as nat, y as nat))
            } else {
                None::<&P>
            },
            x < self.cols() && y < self.rows() ==> p == Some(&self.pixels()[y * self.cols() + x]),
    {
        if x < self.width && y < self.height {
            proof {
                assert(y * self.width + x < self.width * self.height) by (nonlinear_arith)
                    requires
                        x < self.width,
                        y < self.height,
                ;
            }
            let idx = (y * self.width + x) as usize;
            Some(&self.grid[idx])
        } else {
            None
        }
    }
}

impl<P: Copy + Default> Canvas<P> {
    /// Creates a new canvas with the specified size and all pixels set to `P::default()`.
    pub fn new(width: u32, height: u32) -> (c: Self)
        requires
            width * height <= u32::MAX,
        ensures
            c.wf(),
            c.cols() == width,
            c.rows() == height,
            c.pixels().len() == width * height,
            forall|i: int|
                0 <= i < c.pixels().len() ==> call_ensures(P::default, (), #[trigger] c.pixels()[i]),
    {
        let fill = P::default();
        let n = (width * height) as usize;
        let mut grid: Vec<P> = Vec::new();
        while grid.len() < n
            invariant
                grid@.len() <= n,
                forall|i: int| 0 <= i < grid@.len() ==> #[trigger] grid@[i] == fill,
            decreases n - grid@.len(),
        {
            grid.push(fill);
        }
        Canvas { grid, width, height }
    }
}

impl Canvas<Rgb888> {
    /// Converts the canvas' contents to PPM format.
    pub fn convert_to_ppm(&self) -> (ppm: String)
        requires
            self.wf(),
        ensures
            ppm@ == ppm_text(self.cols(), self.rows(), self.pixels()),
    {
        let chars = encode_ppm(self.width, self.height, &self.grid);
        chars_to_string(chars)
    }
}

/// Collects characters into a string.
///
/// Trusted: `String`'s `FromIterator<char>` appends the characters in order, so the string holds
/// exactly these characters.
#[verifier::external_body]
fn chars_to_string(chars: Vec<char>) -> (s: String)
    ensures
        s@ == chars@,
{
    String::from_iter(chars)
}

/// Reading a pixel gives back the color last put there, and putting a pixel changes no other.
pub proof fn lemma_get_after_put<P>(before: Canvas<P>, after: Canvas<P>, x: nat, y: nat, c: P)
    requires
        before.wf(),
        x < before.cols(),
        y < before.rows(),
        after.cols() == before.cols(),
        after.rows() == before.rows(),
        after.pixels() == before.pixels().update(pixel_index(before.cols(), x, y) as int, c),
    ensures
        pixel_index(after.cols(), x, y) < after.pixels().len(),
        after.pixel(x, y) == c,
        forall|x2: nat, y2: nat|
            x2 < after.cols() && y2 < after.rows() && (x2 != x || y2 != y) ==> #[trigger] after.pixel(
                x2,
                y2,
            ) == before.pixel(x2, y2),
{
    let w = before.cols();
    let h = before.rows();
    assert(y * w + x < w * h) by (nonlinear_arith)
        requires
            x < w,
            y < h,
    ;
    assert forall|x2: nat, y2: nat|
        x2 < w && y2 < h && (x2 != x || y2 != y) implies #[trigger] after.pixel(x2, y2)
        == before.pixel(x2, y2) by {
        assert(y2 * w + x2 < w * h) by (nonlinear_arith)
            requires
                x2 < w,
                y2 < h,
        ;
        if y2 < y {
            assert(y2 * w + w <= y * w) by (nonlinear_arith)
                requires
                    y2 < y,
            ;
        } else if y < y2 {
            assert(y * w + w <= y2 * w) by (nonlinear_arith)
                requires
                    y < y2,
            ;
        }
    }
}

/// Pixel `(x,y)` is stored at position `y * width + x`: the storage holds the top row, left to
/// right, then the next row, and so on, which is the order in which `iter`, `scanline` and the
/// PPM text read it.
pub proof fn lemma_pixels_are_row_major<P>(c: Canvas<P>, x: nat, y: nat)
    requires
        c.wf(),
        x < c.cols(),
        y < c.rows(),
    ensures
        pixel_index(c.cols(), x, y) == y * c.cols() + x,
        y * c.cols() + x < c.pixels().len(),
        c.pixel(x, y) == c.pixels()[(y * c.cols() + x) as int],
{
    assert(y * c.cols() + x < c.cols() * c.rows()) by (nonlinear_arith)
        requires
            x < c.cols(),
            y < c.rows(),
    ;
}

} // verus!
