use crate::text::{lines_of, lemma_lines_nonempty, split_lines};
use vstd::prelude::*;
use vstd::string::StringSliceAdditionalSpecFns;

verus! {

/// A position on a grid: a signed row and column.
#[derive(Clone, Copy, Debug, PartialEq, Eq, Structural, PartialOrd, Ord, Hash)]
pub struct Pos {
    pub r: isize,
    pub c: isize,
}

/// Row and column offsets of the eight neighbours, in the order `neighbors8` yields them.
pub open spec fn neighbor_delta(k: int) -> (int, int) {
    if k == 0 {
        (-1, -1)
    } else if k == 1 {
        (0, -1)
    } else if k == 2 {
        (1, -1)
    } else if k == 3 {
        (-1, 0)
    } else if k == 4 {
        (1, 0)
    } else if k == 5 {
        (-1, 1)
    } else if k == 6 {
        (0, 1)
    } else {
        (1, 1)
    }
}

impl Pos {
    pub open spec fn spec_new(r: int, c: int) -> Pos {
        Pos { r: r as isize, c: c as isize }
    }

    /// Neither coordinate is at the end of its range, so every neighbour exists.
    pub open spec fn is_interior(self) -> bool {
        &&& isize::MIN < self.r < isize::MAX
        &&& isize::MIN < self.c < isize::MAX
    }

    pub fn new(r: isize, c: isize) -> (p: Pos)
        ensures
            p.r == r,
            p.c == c,
    {
        Pos { r, c }
    }

    /// One column to the left.
    pub fn left(&self) -> (p: Pos)
        requires
            self.c > isize::MIN,
        ensures
            p.r == self.r,
            p.c == self.c - 1,
    {
        Pos { r: self.r, c: self.c - 1 }
    }

    /// One column to the right.
    pub fn right(&self) -> (p: Pos)
        requires
            self.c < isize::MAX,
        ensures
            p.r == self.r,
            p.c == self.c + 1,
    {
        Pos { r: self.r, c: self.c + 1 }
    }

    /// One row down.
    pub fn down(&self) -> (p: Pos)
        requires
            self.r < isize::MAX,
        ensures
            p.r == self.r + 1,
            p.c == self.c,
    {
        Pos { r: self.r + 1, c: self.c }
    }

    /// One row up.
    pub fn up(&self) -> (p: Pos)
        requires
            self.r > isize::MIN,
        ensures
            p.r == self.r - 1,
            p.c == self.c,
    {
        Pos { r: self.r - 1, c: self.c }
    }

    /// The eight positions at Chebyshev distance one, column by column from the left,
    /// each column from the top.
    pub fn neighbors8(self) -> (ns: [Pos; 8])
        requires
            self.is_interior(),
        ensures
            forall|k: int|
                0 <= k < 8 ==> #[trigger] ns@[k].r == self.r + neighbor_delta(k).0 && ns@[k].c
                    == self.c + neighbor_delta(k).1,
    {
        let (r, c) = (self.r, self.c);
        [
            Pos { r: r - 1, c: c - 1 },
            Pos { r, c: c - 1 },
            Pos { r: r + 1, c: c - 1 },
            Pos { r: r - 1, c },
            Pos { r: r + 1, c },
            Pos { r: r - 1, c: c + 1 },
            Pos { r, c: c + 1 },
            Pos { r: r + 1, c: c + 1 },
        ]
    }
}

/// Why a grid could not be built or read.
#[derive(Clone, Copy, Debug, PartialEq, Eq, Structural)]
pub enum GridError {
    /// The text is empty, its rows differ in length, or the grid would not fit in memory.
    Construction,
    /// A position lies outside the grid and its padding ring.
    OutOfRange,
}

/// The element at row `r`, column `c` of the row-major sequence `s` with rows of length `w`.
pub open spec fn at<T>(s: Seq<T>, w: int, r: int, c: int) -> T {
    s[r * w + c]
}

pub proof fn lemma_row_major(r: int, c: int, w: int, h: int)
    requires
        0 <= r < h,
        0 <= c < w,
    ensures
        0 <= r * w + c < h * w,
        r * w <= r * w + c,
        (r + 1) * w == r * w + w,
{
    assert(0 <= r * w + c < h * w) by (nonlinear_arith)
        requires
            0 <= r < h,
            0 <= c < w,
    ;
    assert((r + 1) * w == r * w + w) by (nonlinear_arith);
}

/// Index distinctness: cells of different rows or columns have different offsets.
pub proof fn lemma_row_major_inj(r1: int, c1: int, r2: int, c2: int, w: int)
    requires
        0 <= c1 < w,
        0 <= c2 < w,
        r1 * w + c1 == r2 * w + c2,
        0 <= r1,
        0 <= r2,
    ensures
        r1 == r2,
        c1 == c2,
{
    if r1 < r2 {
        assert(r1 * w + w <= r2 * w) by (nonlinear_arith)
            requires
                r1 < r2,
                w > 0,
        ;
    } else if r2 < r1 {
        assert(r2 * w + w <= r1 * w) by (nonlinear_arith)
            requires
                r2 < r1,
                w > 0,
        ;
    }
}

pub proof fn lemma_row_before(r2: int, c2: int, r: int, w: int)
    requires
        0 <= r2 < r,
        0 <= c2 < w,
    ensures
        r2 * w + c2 < r * w,
{
    assert(r2 * w + c2 < r * w) by (nonlinear_arith)
        requires
            0 <= r2 < r,
            0 <= c2 < w,
    ;
}

/// Extents that a grid can have: each, and the number of cells, fit in an `isize`.
pub open spec fn fits_grid(w: int, h: int) -> bool {
    &&& 0 <= w <= isize::MAX
    &&& 0 <= h <= isize::MAX
    &&& w * h <= isize::MAX
}

/// `ps` lists the positions of a `w` by `h` grid row by row, each row by column.
pub open spec fn is_row_scan(ps: Seq<Pos>, w: int, h: int) -> bool {
    &&& ps.len() == w * h
    &&& forall|r: int, c: int|
        0 <= r < h && 0 <= c < w ==> #[trigger] at(ps, w, r, c) == Pos::spec_new(r, c)
}

/// Every line is as long as the first.
pub open spec fn is_rectangular(ls: Seq<Seq<u8>>) -> bool {
    forall|i: int| 0 <= i < ls.len() ==> #[trigger] ls[i].len() == ls[0].len()
}

/// `base` with each line of `ls` copied in turn to the start of its row of a grid `w` cells
/// wide with `pad` cells of padding; a line whose cells would run past the end is skipped.
pub open spec fn paint(base: Seq<u8>, ls: Seq<Seq<u8>>, w: int, pad: int) -> Seq<u8>
    decreases ls.len(),
{
    if ls.len() == 0 {
        base
    } else {
        let prev = paint(base, ls.drop_last(), w, pad);
        let start = (ls.len() - 1 + pad) * w + pad;
        let end = start + ls.last().len();
        if 0 <= start < prev.len() && end <= prev.len() {
            prev.take(start) + ls.last() + prev.skip(end)
        } else {
            prev
        }
    }
}

pub proof fn lemma_paint_len(base: Seq<u8>, ls: Seq<Seq<u8>>, w: int, pad: int)
    ensures
        paint(base, ls, w, pad).len() == base.len(),
    decreases ls.len(),
{
    if ls.len() > 0 {
        lemma_paint_len(base, ls.drop_last(), w, pad);
    }
}

/// Number of elements of `s` equal to `t`.
pub open spec fn count_of(s: Seq<u8>, t: u8) -> nat
    decreases s.len(),
{
    if s.len() == 0 {
        0
    } else {
        count_of(s.drop_last(), t) + if s.last() == t {
            1nat
        } else {
            0nat
        }
    }
}

pub proof fn lemma_count_concat(a: Seq<u8>, b: Seq<u8>, t: u8)
    ensures
        count_of(a + b, t) == count_of(a, t) + count_of(b, t),
    decreases b.len(),
{
    if b.len() > 0 {
        lemma_count_concat(a, b.drop_last(), t);
        assert((a + b).drop_last() =~= a + b.drop_last());
    } else {
        assert(a + b =~= a);
    }
}

pub proof fn lemma_count_le(s: Seq<u8>, t: u8)
    ensures
        count_of(s, t) <= s.len(),
    decreases s.len(),
{
    if s.len() > 0 {
        lemma_count_le(s.drop_last(), t);
    }
}

pub proof fn lemma_count_all(s: Seq<u8>, t: u8)
    requires
        forall|i: int| 0 <= i < s.len() ==> s[i] == t,
    ensures
        count_of(s, t) == s.len(),
    decreases s.len(),
{
    if s.len() > 0 {
        lemma_count_all(s.drop_last(), t);
    }
}

/// Number of lanes compared at once by `count_eq`.
pub const LANES: usize = 64;

/// Counts the lanes of a full chunk that hold `t`.
fn count_lanes(lanes: &Vec<u8>, t: u8) -> (k: usize)
    ensures
        k == count_of(lanes@, t),
{
    let mut k: usize = 0;
    let mut i: usize = 0;
    while i < lanes.len()
        invariant
            i <= lanes@.len(),
            k == count_of(lanes@.take(i as int), t),
            k <= i,
        decreases lanes@.len() - i,
    {
        assert(lanes@.take(i + 1).drop_last() =~= lanes@.take(i as int));
        if lanes[i] == t {
            k += 1;
        }
        i += 1;
    }
    assert(lanes@.take(lanes@.len() as int) =~= lanes@);
    k
}

/// A dense row-major grid surrounded by a ring of `PAD` cells on every side.
pub struct Grid<T, const PAD: usize> {
    data: Vec<T>,
    width: usize,
    height: usize,
}

impl<T, const PAD: usize> Grid<T, PAD> {
    /// Width of the stored rows, padding included.
    pub closed spec fn padded_width(&self) -> int {
        self.width as int
    }

    /// Number of stored rows, padding included.
    pub closed spec fn padded_height(&self) -> int {
        self.height as int
    }

    /// The whole buffer in storage order.
    pub closed spec fn cells(&self) -> Seq<T> {
        self.data@
    }

    /// The buffer holds exactly the stored rows, whose extents cover the padding on both
    /// sides and, with their product, fit in an `isize`.
    pub open spec fn wf(&self) -> bool {
        &&& self.cells().len() == self.padded_width() * self.padded_height()
        &&& self.padded_width() * self.padded_height() <= isize::MAX
        &&& 2 * PAD <= self.padded_width() <= isize::MAX
        &&& 2 * PAD <= self.padded_height() <= isize::MAX
    }

    pub open spec fn spec_width(&self) -> int {
        self.padded_width() - 2 * PAD
    }

    pub open spec fn spec_height(&self) -> int {
        self.padded_height() - 2 * PAD
    }

    /// Offset in the buffer of the logical position (`r`, `c`).
    pub open spec fn offset(&self, r: int, c: int) -> int {
        (r + PAD) * self.padded_width() + (c + PAD)
    }

    /// The element at the logical position (`r`, `c`).
    pub open spec fn cell(&self, r: int, c: int) -> T {
        self.cells()[self.offset(r, c)]
    }

    /// `p` lies on the grid or on its padding ring.
    pub open spec fn in_range(&self, p: Pos) -> bool {
        &&& -PAD <= p.r < self.spec_height() + PAD
        &&& -PAD <= p.c < self.spec_width() + PAD
    }

    /// `p` is one of the four corners of the grid proper.
    pub open spec fn is_corner(&self, p: Pos) -> bool {
        &&& p.r == 0 || p.r == self.spec_height() - 1
        &&& p.c == 0 || p.c == self.spec_width() - 1
    }

    /// `p` lies on the grid proper.
    pub open spec fn in_logical(&self, p: Pos) -> bool {
        &&& 0 <= p.r < self.spec_height()
        &&& 0 <= p.c < self.spec_width()
    }

    /// `self` holds `g`'s stored columns as its stored rows.
    pub open spec fn is_transpose_of(&self, g: &Self) -> bool {
        &&& self.wf()
        &&& self.padded_width() == g.padded_height()
        &&& self.padded_height() == g.padded_width()
        &&& self.spec_width() == g.spec_height()
        &&& self.spec_height() == g.spec_width()
        &&& forall|r: int, c: int|
            -PAD <= r < self.spec_height() + PAD && -PAD <= c < self.spec_width() + PAD
                ==> #[trigger] self.cell(r, c) == g.cell(c, r)
    }

    /// The physical row `r`, padding included.
    pub open spec fn spec_row(&self, r: int) -> Seq<T> {
        self.cells().subrange(r * self.padded_width(), (r + 1) * self.padded_width())
    }

    pub proof fn lemma_offset(&self, r: int, c: int)
        requires
            self.wf(),
            -PAD <= r < self.spec_height() + PAD,
            -PAD <= c < self.spec_width() + PAD,
        ensures
            0 <= self.offset(r, c) < self.cells().len(),
    {
        lemma_row_major(r + PAD, c + PAD, self.padded_width(), self.padded_height());
    }

    /// A grid of `width` by `height` cells holding `default`, inside a ring of `default`.
    pub fn new(width: usize, height: usize, default: T) -> (g: Self)
        where
            T: Copy,
        requires
            (width + 2 * PAD) * (height + 2 * PAD) <= isize::MAX,
            width + 2 * PAD <= isize::MAX,
            height + 2 * PAD <= isize::MAX,
        ensures
            g.wf(),
            g.spec_width() == width,
            g.spec_height() == height,
            forall|i: int| 0 <= i < g.cells().len() ==> #[trigger] g.cells()[i] == default,
    {
        let w = width + PAD * 2;
        let h = height + PAD * 2;
        let n = w * h;
        let mut data: Vec<T> = Vec::new();
        let mut i: usize = 0;
        while i < n
            invariant
                i <= n,
                data@.len() == i,
                forall|k: int| 0 <= k < i ==> #[trigger] data@[k] == default,
            decreases n - i,
        {
            data.push(default);
            i += 1;
        }
        Grid { data, width: w, height: h }
    }

    /// Logical width: the stored width less the padding on both sides.
    pub fn width(&self) -> (w: usize)
        requires
            self.wf(),
        ensures
            w == self.spec_width(),
    {
        self.width - PAD * 2
    }

    /// Logical height: the stored height less the padding on both sides.
    pub fn height(&self) -> (h: usize)
        requires
            self.wf(),
        ensures
            h == self.spec_height(),
    {
        self.height - PAD * 2
    }

    /// Buffer offset of `p`, which must lie on the grid or its ring.
    fn offset_of(&self, p: Pos) -> (i: usize)
        requires
            self.wf(),
            self.in_range(p),
        ensures
            i == self.offset(p.r as int, p.c as int),
            i < self.cells().len(),
    {
        proof {
            self.lemma_offset(p.r as int, p.c as int);
        }
        let pad = PAD as isize;
        let row = (p.r + pad) as usize;
        let col = (p.c + pad) as usize;
        row * self.width + col
    }

    /// The element at `p`, which must lie on the grid or its ring.
    pub fn index(&self, p: Pos) -> (v: &T)
        requires
            self.wf(),
            self.in_range(p),
        ensures
            *v == self.cell(p.r as int, p.c as int),
            *v == self.cells()[(p.r + PAD) * self.padded_width() + (p.c + PAD)],
    {
        let i = self.offset_of(p);
        &self.data[i]
    }

    /// The element at `p`, or `OutOfRange` where `p` lies beyond the ring.
    pub fn get(&self, p: Pos) -> (v: Result<&T, GridError>)
        requires
            self.wf(),
        ensures
            self.in_range(p) ==> v == Ok::<&T, GridError>(&self.cell(p.r as int, p.c as int)),
            !self.in_range(p) ==> v == Err::<&T, GridError>(GridError::OutOfRange),
    {
        let pad = PAD as isize;
        let h = self.height as isize;
        let w = self.width as isize;
        if p.r < -pad || p.r >= h - pad || p.c < -pad || p.c >= w - pad {
            Err(GridError::OutOfRange)
        } else {
            Ok(self.index(p))
        }
    }

    /// Replaces the element at `p`, which must lie on the grid or its ring.
    pub fn set(&mut self, p: Pos, v: T)
        requires
            old(self).wf(),
            old(self).in_range(p),
        ensures
            final(self).wf(),
            final(self).padded_width() == old(self).padded_width(),
            final(self).padded_height() == old(self).padded_height(),
            final(self).cells() == old(self).cells().update(
                old(self).offset(p.r as int, p.c as int),
                v,
            ),
    {
        let i = self.offset_of(p);
        self.data.set(i, v);
    }

    /// The physical row `r` as a slice of the padded width.
    pub fn row(&self, r: usize) -> (s: &[T])
        requires
            self.wf(),
            r < self.padded_height(),
        ensures
            s@ == self.spec_row(r as int),
            s@.len() == self.padded_width(),
    {
        proof {
            assert(r * self.padded_width() + self.padded_width() <= self.padded_width()
                * self.padded_height()) by (nonlinear_arith)
                requires
                    r < self.padded_height(),
                    self.padded_width() >= 0,
            ;
            assert((r + 1) * self.padded_width() == r * self.padded_width() + self.padded_width())
                by (nonlinear_arith);
            assert(0 <= r * self.padded_width()) by (nonlinear_arith)
                requires
                    self.padded_width() >= 0,
            ;
        }
        let start = r * self.width;
        let end = start + self.width;
        &self.data.as_slice()[start..end]
    }
}


impl Grid<u8, 0> {
    /// Builds a grid from `input` cut into rows at `delimiter`, one byte per cell. The text
    /// must be non-empty and all of its rows as long as the first.
    pub fn from_string(delimiter: u8, input: &str) -> (res: Result<Self, GridError>)
        ensures
            ({
                let ls = lines_of(input.spec_bytes(), delimiter);
                &&& res is Ok <==> input.spec_bytes().len() > 0 && is_rectangular(ls)
                    && fits_grid(ls[0].len() as int, ls.len() as int)
                &&& res matches Ok(g) ==> {
                    &&& g.wf()
                    &&& g.spec_width() == ls[0].len()
                    &&& g.spec_height() == ls.len()
                    &&& forall|r: int, c: int|
                        0 <= r < g.spec_height() && 0 <= c < g.spec_width() ==> #[trigger] g.cell(
                            r,
                            c,
                        ) == ls[r][c]
                }
                &&& res matches Err(e) ==> e == GridError::Construction
            }),
    {
        let b = input.as_bytes();
        if b.len() == 0 {
            return Err(GridError::Construction);
        }
        let lines = split_lines(b, delimiter);
        let ghost ls = lines_of(b@, delimiter);
        proof {
            lemma_lines_nonempty(b@, delimiter);
            assert(forall|k: int| 0 <= k < lines@.len() ==> #[trigger] lines@[k]@ == ls[k]) by {
                assert forall|k: int| 0 <= k < lines@.len() implies #[trigger] lines@[k]@ == ls[k] by {
                    assert(lines.deep_view()[k] =~= lines@[k]@);
                }
            }
        }
        let h = lines.len();
        let w = lines[0].len();
        let mut i: usize = 0;
        while i < h
            invariant
                ls == lines_of(input.spec_bytes(), delimiter),
                b@.len() > 0,
                h == lines@.len() == ls.len(),
                w == ls[0].len(),
                i <= h,
                forall|k: int| 0 <= k < lines@.len() ==> #[trigger] lines@[k]@ == ls[k],
                forall|k: int| 0 <= k < i ==> #[trigger] ls[k].len() == w,
            decreases h - i,
        {
            if lines[i].len() != w {
                assert(lines@[i as int]@ == ls[i as int]);
                assert(!is_rectangular(ls));
                return Err(GridError::Construction);
            }
            i += 1;
        }
        let limit = isize::MAX as usize;
        if w > limit || h > limit {
            return Err(GridError::Construction);
        }
        let n = match w.checked_mul(h) {
            Some(n) => n,
            None => {
                return Err(GridError::Construction);
            },
        };
        if n > limit {
            return Err(GridError::Construction);
        }
        let mut data: Vec<u8> = Vec::new();
        let mut r: usize = 0;
        while r < h
            invariant
                h == lines@.len() == ls.len(),
                w == ls[0].len(),
                is_rectangular(ls),
                forall|k: int| 0 <= k < lines@.len() ==> #[trigger] lines@[k]@ == ls[k],
                r <= h,
                data@.len() == r * w,
                forall|r2: int, c2: int|
                    0 <= r2 < r && 0 <= c2 < w ==> #[trigger] at(data@, w as int, r2, c2)
                        == ls[r2][c2],
            decreases h - r,
        {
            let mut c: usize = 0;
            while c < w
                invariant
                    h == lines@.len() == ls.len(),
                    w == ls[0].len(),
                    is_rectangular(ls),
                    forall|k: int| 0 <= k < lines@.len() ==> #[trigger] lines@[k]@ == ls[k],
                    r < h,
                    c <= w,
                    data@.len() == r * w + c,
                    forall|r2: int, c2: int|
                        0 <= r2 < r && 0 <= c2 < w ==> #[trigger] at(data@, w as int, r2, c2)
                            == ls[r2][c2],
                    forall|c2: int| 0 <= c2 < c ==> #[trigger] at(data@, w as int, r as int, c2)
                        == ls[r as int][c2],
                decreases w - c,
            {
                assert(ls[r as int].len() == w);
                let ghost before = data@;
                data.push(lines[r][c]);
                assert forall|r2: int, c2: int|
                    0 <= r2 < r && 0 <= c2 < w implies #[trigger] at(data@, w as int, r2, c2)
                        == ls[r2][c2] by {
                    lemma_row_before(r2, c2, r as int, w as int);
                    assert(at(before, w as int, r2, c2) == ls[r2][c2]);
                }
                assert forall|c2: int| 0 <= c2 < c + 1 implies #[trigger] at(
                    data@,
                    w as int,
                    r as int,
                    c2,
                ) == ls[r as int][c2] by {
                    if c2 < c {
                        assert(at(before, w as int, r as int, c2) == ls[r as int][c2]);
                    }
                }
                c += 1;
            }
            assert((r + 1) * w == r * w + w) by (nonlinear_arith);
            r += 1;
        }
        let g = Grid { data, width: w, height: h };
        assert(data@.len() == w * h) by (nonlinear_arith)
            requires
                data@.len() == h * w,
        ;
        assert forall|r: int, c: int|
            0 <= r < g.spec_height() && 0 <= c < g.spec_width() implies #[trigger] g.cell(r, c)
                == ls[r][c] by {
            assert(at(data@, w as int, r, c) == ls[r][c]);
        }
        Ok(g)
    }
}


impl<const PAD: usize> Grid<u8, PAD> {
    /// Builds a padded grid from `input` cut into rows at `delimiter`. The width is the
    /// length of the first row and the height the input's length divided by it; every cell
    /// starts as `fill`, then each row is copied to its place unless it would run past the
    /// end of the buffer. The input must hold a delimiter after a non-empty first row.
    pub fn from_string_with_padding(delimiter: u8, fill: u8, input: &str) -> (res: Result<
        Self,
        GridError,
    >)
        ensures
            ({
                let b = input.spec_bytes();
                let ls = lines_of(b, delimiter);
                let uw = ls[0].len() as int;
                let uh = b.len() as int / uw;
                &&& res is Ok <==> ls.len() > 1 && uw > 0 && fits_grid(uw + 2 * PAD, uh + 2 * PAD)
                &&& res matches Ok(g) ==> {
                    &&& g.wf()
                    &&& g.spec_width() == uw
                    &&& g.spec_height() == uh
                    &&& g.cells() == paint(
                        Seq::new(g.cells().len(), |i: int| fill),
                        ls,
                        uw + 2 * PAD,
                        PAD as int,
                    )
                }
                &&& res matches Err(e) ==> e == GridError::Construction
            }),
    {
        let b = input.as_bytes();
        let lines = split_lines(b, delimiter);
        let ghost ls = lines_of(b@, delimiter);
        proof {
            lemma_lines_nonempty(b@, delimiter);
            assert forall|k: int| 0 <= k < lines@.len() implies #[trigger] lines@[k]@ == ls[k] by {
                assert(lines.deep_view()[k] =~= lines@[k]@);
            }
        }
        if lines.len() < 2 || lines[0].len() == 0 {
            return Err(GridError::Construction);
        }
        let uw = lines[0].len();
        let uh = b.len() / uw;
        let limit = isize::MAX as usize;
        if PAD > limit / 2 || uw > limit - 2 * PAD || uh > limit - 2 * PAD {
            return Err(GridError::Construction);
        }
        let w = uw + PAD * 2;
        let h = uh + PAD * 2;
        let n = match w.checked_mul(h) {
            Some(n) => n,
            None => {
                return Err(GridError::Construction);
            },
        };
        if n > limit {
            return Err(GridError::Construction);
        }
        let ghost base = Seq::new(n as nat, |i: int| fill);
        let mut data: Vec<u8> = Vec::new();
        let mut i: usize = 0;
        while i < n
            invariant
                i <= n,
                data@ =~= base.take(i as int),
                base.len() == n,
                forall|k: int| 0 <= k < n ==> #[trigger] base[k] == fill,
            decreases n - i,
        {
            data.push(fill);
            i += 1;
        }
        assert(ls.take(0) =~= Seq::<Seq<u8>>::empty());
        let mut r: usize = 0;
        while r < lines.len()
            invariant
                ls == lines_of(input.spec_bytes(), delimiter),
                lines@.len() == ls.len(),
                forall|k: int| 0 <= k < lines@.len() ==> #[trigger] lines@[k]@ == ls[k],
                r <= lines@.len(),
                uw > 0,
                w == uw + 2 * PAD,
                h == uh + 2 * PAD,
                n == w * h,
                n <= isize::MAX,
                base.len() == n,
                data@ == paint(base, ls.take(r as int), w as int, PAD as int),
            decreases lines@.len() - r,
        {
            let ghost prev = data@;
            proof {
                assert(ls.take(r + 1).drop_last() =~= ls.take(r as int));
                lemma_paint_len(base, ls.take(r as int), w as int, PAD as int);
            }
            let line = &lines[r];
            if r >= h - PAD {
                assert((r + PAD) * w + PAD >= h * w) by (nonlinear_arith)
                    requires
                        r + PAD >= h,
                        w >= 0,
                ;
                assert(n == h * w) by (nonlinear_arith)
                    requires
                        n == w * h,
                ;
            }
            if r < h - PAD {
                proof {
                    lemma_row_major((r + PAD) as int, PAD as int, w as int, h as int);
                }
                let start = (r + PAD) * w + PAD;
                if line.len() <= n - start {
                    let mut j: usize = 0;
                    while j < line.len()
                        invariant
                            line@ == ls[r as int],
                            start + line@.len() <= n,
                            prev.len() == n,
                            j <= line@.len(),
                            data@.len() == n,
                            forall|k: int|
                                0 <= k < n ==> #[trigger] data@[k] == if start <= k < start + j {
                                    line@[k - start]
                                } else {
                                    prev[k]
                                },
                        decreases line@.len() - j,
                    {
                        data.set(start + j, line[j]);
                        j += 1;
                    }
                    assert(data@ =~= prev.take(start as int) + ls[r as int] + prev.skip(
                        start + line@.len(),
                    ));
                }
            }
            r += 1;
        }
        assert(ls.take(ls.len() as int) =~= ls);
        proof {
            lemma_paint_len(base, ls, w as int, PAD as int);
        }
        let g = Grid { data, width: w, height: h };
        assert(base =~= Seq::new(g.cells().len(), |i: int| fill));
        Ok(g)
    }
}


impl<T, const PAD: usize> Grid<T, PAD> {
    /// A new grid whose stored rows are this grid's stored columns: the element at
    /// (`r`, `c`) moves to (`c`, `r`), padding ring included.
    pub fn transposed(self) -> (t: Self)
        where
            T: Copy,
        requires
            self.wf(),
        ensures
            t.is_transpose_of(&self),
    {
        let w = self.width;
        let h = self.height;
        let mut data: Vec<T> = Vec::new();
        let mut i: usize = 0;
        while i < w
            invariant
                self.wf(),
                w == self.padded_width(),
                h == self.padded_height(),
                i <= w,
                data@.len() == i * h,
                forall|i2: int, j2: int|
                    0 <= i2 < i && 0 <= j2 < h ==> #[trigger] at(data@, h as int, i2, j2) == at(
                        self.cells(),
                        w as int,
                        j2,
                        i2,
                    ),
            decreases w - i,
        {
            let mut j: usize = 0;
            while j < h
                invariant
                    self.wf(),
                    w == self.padded_width(),
                    h == self.padded_height(),
                    i < w,
                    j <= h,
                    data@.len() == i * h + j,
                    forall|i2: int, j2: int|
                        0 <= i2 < i && 0 <= j2 < h ==> #[trigger] at(data@, h as int, i2, j2)
                            == at(self.cells(), w as int, j2, i2),
                    forall|j2: int| 0 <= j2 < j ==> #[trigger] at(data@, h as int, i as int, j2)
                        == at(self.cells(), w as int, j2, i as int),
                decreases h - j,
            {
                proof {
                    lemma_row_major(j as int, i as int, w as int, h as int);
                }
                let ghost before = data@;
                data.push(self.data[j * w + i]);
                assert forall|i2: int, j2: int|
                    0 <= i2 < i && 0 <= j2 < h implies #[trigger] at(data@, h as int, i2, j2)
                        == at(self.cells(), w as int, j2, i2) by {
                    lemma_row_before(i2, j2, i as int, h as int);
                    assert(at(before, h as int, i2, j2) == at(self.cells(), w as int, j2, i2));
                }
                assert forall|j2: int| 0 <= j2 < j + 1 implies #[trigger] at(
                    data@,
                    h as int,
                    i as int,
                    j2,
                ) == at(self.cells(), w as int, j2, i as int) by {
                    if j2 < j {
                        assert(at(before, h as int, i as int, j2) == at(
                            self.cells(),
                            w as int,
                            j2,
                            i as int,
                        ));
                    }
                }
                j += 1;
            }
            assert((i + 1) * h == i * h + h) by (nonlinear_arith);
            i += 1;
        }
        assert(w * h == h * w) by (nonlinear_arith);
        let t = Grid { data, width: h, height: w };
        assert forall|r: int, c: int|
            -PAD <= r < t.spec_height() + PAD && -PAD <= c < t.spec_width() + PAD
                implies #[trigger] t.cell(r, c) == self.cell(c, r) by {
            assert(at(data@, h as int, r + PAD, c + PAD) == at(
                self.cells(),
                w as int,
                c + PAD,
                r + PAD,
            ));
        }
        t
    }

    /// Every logical position, row by row and within a row by column.
    pub fn row_scan_positions(&self) -> (ps: Vec<Pos>)
        requires
            self.wf(),
        ensures
            is_row_scan(ps@, self.spec_width(), self.spec_height()),
    {
        let w = self.width();
        let h = self.height();
        let mut ps: Vec<Pos> = Vec::new();
        let mut r: usize = 0;
        while r < h
            invariant
                self.wf(),
                w == self.spec_width(),
                h == self.spec_height(),
                r <= h,
                ps@.len() == r * w,
                forall|r2: int, c2: int|
                    0 <= r2 < r && 0 <= c2 < w ==> #[trigger] at(ps@, w as int, r2, c2) == Pos::spec_new(r2 as int, c2 as int),
            decreases h - r,
        {
            let mut c: usize = 0;
            while c < w
                invariant
                    self.wf(),
                    w == self.spec_width(),
                    h == self.spec_height(),
                    r < h,
                    c <= w,
                    ps@.len() == r * w + c,
                    forall|r2: int, c2: int|
                        0 <= r2 < r && 0 <= c2 < w ==> #[trigger] at(ps@, w as int, r2, c2)
                            == Pos::spec_new(r2 as int, c2 as int),
                    forall|c2: int| 0 <= c2 < c ==> #[trigger] at(ps@, w as int, r as int, c2)
                        == Pos::spec_new(r as int, c2 as int),
                decreases w - c,
            {
                let ghost before = ps@;
                ps.push(Pos { r: r as isize, c: c as isize });
                assert forall|r2: int, c2: int|
                    0 <= r2 < r && 0 <= c2 < w implies #[trigger] at(ps@, w as int, r2, c2)
                        == Pos::spec_new(r2 as int, c2 as int) by {
                    lemma_row_before(r2, c2, r as int, w as int);
                    assert(at(before, w as int, r2, c2) == Pos::spec_new(r2 as int, c2 as int));
                }
                assert forall|c2: int| 0 <= c2 < c + 1 implies #[trigger] at(
                    ps@,
                    w as int,
                    r as int,
                    c2,
                ) == Pos::spec_new(r as int, c2 as int) by {
                    if c2 < c {
                        assert(at(before, w as int, r as int, c2) == Pos::spec_new(r as int, c2 as int));
                    }
                }
                c += 1;
            }
            assert((r + 1) * w == r * w + w) by (nonlinear_arith);
            r += 1;
        }
        assert(w * h == h * w) by (nonlinear_arith);
        ps
    }

    /// The stored rows in order, each as long as the padded width.
    pub fn iter_rows(&self) -> (rows: Vec<&[T]>)
        requires
            self.wf(),
        ensures
            rows@.len() == self.padded_height(),
            forall|i: int| 0 <= i < rows@.len() ==> #[trigger] rows@[i]@ == self.spec_row(i),
    {
        let mut rows: Vec<&[T]> = Vec::new();
        let mut i: usize = 0;
        while i < self.height
            invariant
                self.wf(),
                i <= self.padded_height(),
                rows@.len() == i,
                forall|k: int| 0 <= k < i ==> #[trigger] rows@[k]@ == self.spec_row(k),
            decreases self.padded_height() - i,
        {
            rows.push(self.row(i));
            i += 1;
        }
        rows
    }

    /// The whole buffer in storage order, padding included.
    pub fn iter(&self) -> (s: &[T])
        ensures
            s@ == self.cells(),
    {
        self.data.as_slice()
    }

    /// The first logical position, in row-major order, whose element satisfies `f`.
    pub fn position<F: Fn(&T) -> bool>(&self, f: F) -> (res: Option<Pos>)
        requires
            self.wf(),
            forall|x: &T| #[trigger] f.requires((x,)),
        ensures
            res matches Some(p) ==> {
                &&& self.in_logical(p)
                &&& f.ensures((&self.cell(p.r as int, p.c as int),), true)
                &&& forall|r: int, c: int|
                    0 <= c < self.spec_width() && (0 <= r < p.r || (r == p.r && 0 <= c < p.c))
                        ==> f.ensures((&#[trigger] self.cell(r, c),), false)
            },
            res is None ==> forall|r: int, c: int|
                0 <= r < self.spec_height() && 0 <= c < self.spec_width() ==> f.ensures(
                    (&#[trigger] self.cell(r, c),),
                    false,
                ),
    {
        let w = self.width();
        let h = self.height();
        let mut r: usize = 0;
        while r < h
            invariant
                self.wf(),
                forall|x: &T| #[trigger] f.requires((x,)),
                w == self.spec_width(),
                h == self.spec_height(),
                r <= h,
                forall|r2: int, c2: int|
                    0 <= r2 < r && 0 <= c2 < w ==> f.ensures(
                        (&#[trigger] self.cell(r2, c2),),
                        false,
                    ),
            decreases h - r,
        {
            let mut c: usize = 0;
            while c < w
                invariant
                    self.wf(),
                    forall|x: &T| #[trigger] f.requires((x,)),
                    w == self.spec_width(),
                    h == self.spec_height(),
                    r < h,
                    c <= w,
                    forall|r2: int, c2: int|
                        0 <= r2 < r && 0 <= c2 < w ==> f.ensures(
                            (&#[trigger] self.cell(r2, c2),),
                            false,
                        ),
                    forall|c2: int|
                        0 <= c2 < c ==> f.ensures((&#[trigger] self.cell(r as int, c2),), false),
                decreases w - c,
            {
                let p = Pos { r: r as isize, c: c as isize };
                if f(self.index(p)) {
                    return Some(p);
                }
                c += 1;
            }
            r += 1;
        }
        None
    }
}

impl<const PAD: usize> Grid<u8, PAD> {
    /// Number of elements of the whole buffer, padding included, equal to `target`. The
    /// buffer is compared in chunks of `LANES` elements; the last chunk is completed with
    /// copies of `target`, whose matches are then taken off again.
    pub fn count_eq(&self, target: u8) -> (k: usize)
        requires
            self.wf(),
        ensures
            k == count_of(self.cells(), target),
    {
        let n = self.data.len();
        let mut count: usize = 0;
        let mut start: usize = 0;
        while start < n
            invariant
                n == self.cells().len(),
                n <= isize::MAX,
                start <= n,
                count == count_of(self.cells().take(start as int), target),
                count <= start,
            decreases n - start,
        {
            let len = if n - start < LANES {
                n - start
            } else {
                LANES
            };
            let mut lanes: Vec<u8> = Vec::new();
            let mut j: usize = 0;
            while j < LANES
                invariant
                    n == self.cells().len(),
                    start + len <= n,
                    len <= LANES,
                    j <= LANES,
                    lanes@.len() == j,
                    forall|i: int|
                        0 <= i < j ==> #[trigger] lanes@[i] == if i < len {
                            self.cells()[start + i]
                        } else {
                            target
                        },
                decreases LANES - j,
            {
                if j < len {
                    lanes.push(self.data[start + j]);
                } else {
                    lanes.push(target);
                }
                j += 1;
            }
            let matched = count_lanes(&lanes, target);
            let ghost chunk = self.cells().subrange(start as int, start + len);
            let ghost filler = lanes@.skip(len as int);
            proof {
                assert(lanes@ =~= chunk + filler);
                lemma_count_concat(chunk, filler, target);
                lemma_count_all(filler, target);
                lemma_count_le(chunk, target);
                assert(self.cells().take(start + len) =~= self.cells().take(start as int) + chunk);
                lemma_count_concat(self.cells().take(start as int), chunk, target);
            }
            count = count + (matched - (LANES - len));
            start = start + len;
        }
        assert(self.cells().take(n as int) =~= self.cells());
        count
    }
}

} // verus!
