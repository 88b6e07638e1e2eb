use crate::grid::{fits_grid, is_rectangular, Grid, Pos};
use crate::solution::{decimal, decimal_string, InputError};
use crate::text::lines_of;
use vstd::prelude::*;
use vstd::utf8::encode_utf8;

verus! {

/// The byte of the beam's entry point.
pub const START: u8 = 83;

/// The byte of a splitter.
pub const SPLITTER: u8 = 94;

/// The rows of the manifold.
pub open spec fn manifold(input: String) -> Seq<Seq<u8>> {
    lines_of(encode_utf8(input@), 10)
}

pub open spec fn width_of(m: Seq<Seq<u8>>) -> int {
    m[0].len() as int
}

pub open spec fn is_start(m: Seq<Seq<u8>>, r: int, c: int) -> bool {
    0 <= r < m.len() && 0 <= c < width_of(m) && m[r][c] == START
}

/// (`r`, `c`) is the first entry point in row-major order.
pub open spec fn first_start(m: Seq<Seq<u8>>, r: int, c: int) -> bool {
    &&& is_start(m, r, c)
    &&& forall|r2: int, c2: int|
        0 <= c2 < width_of(m) && (0 <= r2 < r || (r2 == r && 0 <= c2 < c)) ==> !is_start(
            m,
            r2,
            c2,
        )
}

pub open spec fn is_splitter(m: Seq<Seq<u8>>, r: int, c: int) -> bool {
    0 <= r < m.len() && 0 <= c < width_of(m) && m[r][c] == SPLITTER
}

/// The manifold reads: a non-empty rectangle that fits in memory, with an entry point, and
/// with every splitter away from the side walls and from other splitters on its row.
pub open spec fn manifold_ok(input: String) -> bool {
    let b = encode_utf8(input@);
    let m = manifold(input);
    &&& b.len() > 0
    &&& is_rectangular(m)
    &&& fits_grid(width_of(m), m.len() as int)
    &&& exists|r: int, c: int| is_start(m, r, c)
    &&& forall|r: int, c: int|
        #[trigger] is_splitter(m, r, c) ==> 0 < c < width_of(m) - 1 && !is_splitter(m, r, c - 1)
            && !is_splitter(m, r, c + 1)
}

/// Which columns of row `r` a beam crosses, the beam having entered at (`sr`, `sc`): a beam
/// goes straight down, and one that meets a splitter goes on from both sides of it.
pub open spec fn beams(m: Seq<Seq<u8>>, sr: int, sc: int, r: int) -> Seq<bool>
    decreases r - sr,
{
    let w = width_of(m);
    if r <= sr {
        Seq::new(w as nat, |c: int| c == sc)
    } else {
        let prev = beams(m, sr, sc, r - 1);
        Seq::new(
            w as nat,
            |c: int|
                (prev[c] && !is_splitter(m, r - 1, c)) || (c > 0 && prev[c - 1] && is_splitter(
                    m,
                    r - 1,
                    c - 1,
                )) || (c + 1 < w && prev[c + 1] && is_splitter(m, r - 1, c + 1)),
        )
    }
}

/// Splitters that a beam meets among the first `n` cells of row `r`.
pub open spec fn hits_in_row(m: Seq<Seq<u8>>, sr: int, sc: int, r: int, n: int) -> nat
    decreases n,
{
    if n <= 0 {
        0
    } else {
        hits_in_row(m, sr, sc, r, n - 1) + if beams(m, sr, sc, r)[n - 1] && is_splitter(
            m,
            r,
            n - 1,
        ) {
            1nat
        } else {
            0nat
        }
    }
}

/// Splitters that a beam meets in rows `sr` to `r - 1`.
pub open spec fn hits(m: Seq<Seq<u8>>, sr: int, sc: int, r: int) -> nat
    decreases r - sr,
{
    if r <= sr {
        0
    } else {
        hits(m, sr, sc, r - 1) + hits_in_row(m, sr, sc, r - 1, width_of(m))
    }
}

/// The number of splitters that the beam entering at the first entry point meets.
pub open spec fn split_count(input: String) -> nat {
    let m = manifold(input);
    let (sr, sc) = choose|sr: int, sc: int| first_start(m, sr, sc);
    hits(m, sr, sc, m.len() as int)
}

/// The manifold as a grid, its entry point, and whether it reads.
fn read_manifold(input: &String) -> (r: Result<(Grid<u8, 0>, Pos), InputError>)
    ensures
        r is Ok <==> manifold_ok(*input),
        r matches Ok(x) ==> {
            let m = manifold(*input);
            &&& x.0.wf()
            &&& x.0.spec_width() == width_of(m)
            &&& x.0.spec_height() == m.len()
            &&& forall|r: int, c: int|
                0 <= r < m.len() && 0 <= c < width_of(m) ==> #[trigger] x.0.cell(r, c) == m[r][c]
            &&& first_start(m, x.1.r as int, x.1.c as int)
        },
        r matches Err(e) ==> e == InputError::Malformed,
{
    let ghost m = manifold(*input);
    let g = match Grid::<u8, 0>::from_string(10, input.as_str()) {
        Ok(g) => g,
        Err(_) => {
            return Err(InputError::Malformed);
        },
    };
    let start = match g.position(|x: &u8| -> (b: bool) ensures b == (*x == START) { *x == START }) {
        Some(p) => p,
        None => {
            assert forall|r: int, c: int| !is_start(m, r, c) by {
                if 0 <= r < m.len() && 0 <= c < width_of(m) {
                    assert(g.cell(r, c) == m[r][c]);
                }
            }
            return Err(InputError::Malformed);
        },
    };
    assert forall|r2: int, c2: int|
        0 <= c2 < width_of(m) && (0 <= r2 < start.r || (r2 == start.r && 0 <= c2 < start.c))
            implies !is_start(m, r2, c2) by {
        assert(g.cell(r2, c2) == m[r2][c2]);
    }
    assert(g.cell(start.r as int, start.c as int) == m[start.r as int][start.c as int]);
    let w = g.width();
    let h = g.height();
    let mut r: usize = 0;
    while r < h
        invariant
            m == manifold(*input),
            g.wf(),
            w == g.spec_width() == width_of(m),
            h == g.spec_height() == m.len(),
            forall|r: int, c: int|
                0 <= r < m.len() && 0 <= c < width_of(m) ==> #[trigger] g.cell(r, c) == m[r][c],
            r <= h,
            forall|r2: int, c: int|
                0 <= r2 < r && #[trigger] is_splitter(m, r2, c) ==> 0 < c < width_of(m) - 1
                    && !is_splitter(m, r2, c - 1) && !is_splitter(m, r2, c + 1),
        decreases h - r,
    {
        let mut c: usize = 0;
        while c < w
            invariant
                m == manifold(*input),
                g.wf(),
                w == g.spec_width() == width_of(m),
                h == g.spec_height() == m.len(),
                forall|r: int, c: int|
                    0 <= r < m.len() && 0 <= c < width_of(m) ==> #[trigger] g.cell(r, c)
                        == m[r][c],
                r < h,
                c <= w,
                forall|r2: int, c2: int|
                    0 <= r2 < r && #[trigger] is_splitter(m, r2, c2) ==> 0 < c2 < width_of(m) - 1
                        && !is_splitter(m, r2, c2 - 1) && !is_splitter(m, r2, c2 + 1),
                forall|c2: int|
                    0 <= c2 < c && #[trigger] is_splitter(m, r as int, c2) ==> 0 < c2 < width_of(m)
                        - 1 && !is_splitter(m, r as int, c2 - 1) && !is_splitter(m, r as int, c2 + 1),
            decreases w - c,
        {
            let p = Pos { r: r as isize, c: c as isize };
            assert(g.cell(r as int, c as int) == m[r as int][c as int]);
            if *g.index(p) == SPLITTER {
                assert(is_splitter(m, r as int, c as int));
                if c == 0 || c + 1 >= w {
                    assert(!manifold_ok(*input));
                    return Err(InputError::Malformed);
                }
                assert(g.cell(r as int, c - 1) == m[r as int][c - 1]);
                assert(g.cell(r as int, c + 1) == m[r as int][c + 1]);
                if *g.index(p.left()) == SPLITTER || *g.index(p.right()) == SPLITTER {
                    assert(is_splitter(m, r as int, c - 1) || is_splitter(m, r as int, c + 1));
                    assert(!manifold_ok(*input));
                    return Err(InputError::Malformed);
                }
            }
            c += 1;
        }
        r += 1;
    }
    assert(is_start(m, start.r as int, start.c as int));
    assert(manifold_ok(*input));
    Ok((g, start))
}

proof fn lemma_first_start_unique(m: Seq<Seq<u8>>, r1: int, c1: int, r2: int, c2: int)
    requires
        first_start(m, r1, c1),
        first_start(m, r2, c2),
    ensures
        r1 == r2 && c1 == c2,
{
    if r1 < r2 || (r1 == r2 && c1 < c2) {
        assert(!is_start(m, r1, c1));
    } else if r2 < r1 || (r1 == r2 && c2 < c1) {
        assert(!is_start(m, r2, c2));
    }
}

/// Whether the cell at (`r`, `c`) holds a splitter, for a column that may lie off the grid.
fn splitter_at(g: &Grid<u8, 0>, r: usize, c: isize) -> (b: bool)
    requires
        g.wf(),
        r < g.spec_height(),
    ensures
        b == (0 <= c < g.spec_width() && g.cell(r as int, c as int) == SPLITTER),
{
    if c < 0 || c >= g.width() as isize {
        false
    } else {
        *g.index(Pos { r: r as isize, c }) == SPLITTER
    }
}

/// Number of splitters that the beam meets on its way down the manifold.
pub fn part1(input: String) -> (r: Result<String, InputError>)
    ensures
        r is Ok <==> manifold_ok(input),
        r matches Ok(s) ==> s@ == decimal(split_count(input)),
        r matches Err(e) ==> e == InputError::Malformed,
{
    let (g, start) = read_manifold(&input)?;
    let ghost m = manifold(input);
    let w = g.width();
    let h = g.height();
    let sr = start.r as usize;
    let sc = start.c as usize;
    proof {
        let (r0, c0) = choose|r0: int, c0: int| first_start(m, r0, c0);
        lemma_first_start_unique(m, r0, c0, sr as int, sc as int);
        assert(split_count(input) == hits(m, sr as int, sc as int, h as int));
    }
    let mut cur: Vec<bool> = Vec::new();
    let mut c: usize = 0;
    while c < w
        invariant
            c <= w,
            cur@ =~= beams(m, sr as int, sc as int, sr as int).take(c as int),
            w == width_of(m),
        decreases w - c,
    {
        cur.push(c == sc);
        c += 1;
    }
    let mut total: usize = 0;
    let mut r: usize = sr;
    assert(h * w == w * h) by (nonlinear_arith);
    while r < h
        invariant
            m == manifold(input),
            g.wf(),
            w == g.spec_width() == width_of(m),
            h == g.spec_height() == m.len(),
            w * h <= isize::MAX,
            forall|r: int, c: int|
                0 <= r < m.len() && 0 <= c < width_of(m) ==> #[trigger] g.cell(r, c) == m[r][c],
            sr <= r <= h,
            cur@ == beams(m, sr as int, sc as int, r as int),
            total == hits(m, sr as int, sc as int, r as int),
            total <= (r - sr) * w,
        decreases h - r,
    {
        let ghost row = beams(m, sr as int, sc as int, r as int);
        let mut n: usize = 0;
        let mut c: usize = 0;
        while c < w
            invariant
                g.wf(),
                w == g.spec_width() == width_of(m),
                h == g.spec_height() == m.len(),
                forall|r: int, c: int|
                    0 <= r < m.len() && 0 <= c < width_of(m) ==> #[trigger] g.cell(r, c)
                        == m[r][c],
                r < h,
                c <= w,
                cur@ == row,
                row == beams(m, sr as int, sc as int, r as int),
                n == hits_in_row(m, sr as int, sc as int, r as int, c as int),
                n <= c,
            decreases w - c,
        {
            let split = splitter_at(&g, r, c as isize);
            assert(g.cell(r as int, c as int) == m[r as int][c as int]);
            if cur[c] && split {
                n += 1;
            }
            c += 1;
        }
        let mut next: Vec<bool> = Vec::new();
        let mut c: usize = 0;
        while c < w
            invariant
                g.wf(),
                w == g.spec_width() == width_of(m),
                h == g.spec_height() == m.len(),
                forall|r: int, c: int|
                    0 <= r < m.len() && 0 <= c < width_of(m) ==> #[trigger] g.cell(r, c)
                        == m[r][c],
                sr <= r < h,
                c <= w,
                cur@ == row,
                row == beams(m, sr as int, sc as int, r as int),
                row.len() == w,
                next@ =~= beams(m, sr as int, sc as int, r + 1).take(c as int),
            decreases w - c,
        {
            let ci = c as isize;
            let here = splitter_at(&g, r, ci);
            let left = c > 0 && cur[c - 1] && splitter_at(&g, r, ci - 1);
            let right = c + 1 < w && cur[c + 1] && splitter_at(&g, r, ci + 1);
            proof {
                assert(g.cell(r as int, c as int) == m[r as int][c as int]);
                if c > 0 {
                    assert(g.cell(r as int, c - 1) == m[r as int][c - 1]);
                }
                if c + 1 < w {
                    assert(g.cell(r as int, c + 1) == m[r as int][c + 1]);
                }
            }
            next.push((cur[c] && !here) || left || right);
            c += 1;
        }
        assert((r + 1 - sr) * w == (r - sr) * w + w) by (nonlinear_arith);
        assert((r + 1 - sr) * w <= h * w) by (nonlinear_arith)
            requires
                r + 1 - sr <= h,
                w >= 0,
        ;
        total = total + n;
        cur = next;
        r += 1;
    }
    Ok(decimal_string(total as u64))
}

/// Number of timelines of a particle at (`r`, `c`): it moves down until it leaves the
/// manifold, which ends one timeline, and at a splitter it goes on both left and right.
pub open spec fn timelines(m: Seq<Seq<u8>>, r: int, c: int) -> nat
    decreases (if 0 <= r < m.len() {
        2 * (m.len() - r) + if is_splitter(m, r, c) {
            1int
        } else {
            0int
        }
    } else {
        0int
    }),
{
    if !(0 <= r < m.len() && 0 <= c < width_of(m)) {
        0
    } else if is_splitter(m, r, c) {
        (if !is_splitter(m, r, c - 1) {
            timelines(m, r, c - 1)
        } else {
            0
        }) + (if !is_splitter(m, r, c + 1) {
            timelines(m, r, c + 1)
        } else {
            0
        })
    } else if r + 1 >= m.len() {
        1
    } else {
        timelines(m, r + 1, c)
    }
}

/// `x`, or `u64::MAX` where it is at least that.
pub open spec fn capped(x: nat) -> u64 {
    if x >= u64::MAX {
        u64::MAX
    } else {
        x as u64
    }
}

/// Number of timelines of the particle entering at the first entry point.
pub open spec fn timeline_count(input: String) -> nat {
    let m = manifold(input);
    let (sr, sc) = choose|sr: int, sc: int| first_start(m, sr, sc);
    timelines(m, sr, sc)
}

/// Number of timelines of the particle entering the manifold; counted bottom-up, row by row.
pub fn part2(input: String) -> (r: Result<String, InputError>)
    ensures
        r is Ok <==> manifold_ok(input) && timeline_count(input) < u64::MAX,
        r matches Ok(s) ==> s@ == decimal(timeline_count(input)),
        r matches Err(e) ==> e == if manifold_ok(input) {
            InputError::TooLarge
        } else {
            InputError::Malformed
        },
{
    let (g, start) = read_manifold(&input)?;
    let ghost m = manifold(input);
    let w = g.width();
    let h = g.height();
    let sr = start.r as usize;
    let sc = start.c as usize;
    proof {
        let (r0, c0) = choose|r0: int, c0: int| first_start(m, r0, c0);
        lemma_first_start_unique(m, r0, c0, sr as int, sc as int);
        assert(timeline_count(input) == timelines(m, sr as int, sc as int));
    }
    let mut below: Vec<u64> = Vec::new();
    let mut r: usize = h;
    while r > sr
        invariant
            m == manifold(input),
            manifold_ok(input),
            g.wf(),
            w == g.spec_width() == width_of(m),
            h == g.spec_height() == m.len(),
            forall|r: int, c: int|
                0 <= r < m.len() && 0 <= c < width_of(m) ==> #[trigger] g.cell(r, c) == m[r][c],
            sr < h,
            sr <= r <= h,
            r < h ==> below@.len() == w,
            r < h ==> forall|c: int| 0 <= c < w ==> #[trigger] below@[c] == capped(
                timelines(m, r as int, c),
            ),
        decreases r,
    {
        let row = r - 1;
        let mut first: Vec<u64> = Vec::new();
        let mut c: usize = 0;
        while c < w
            invariant
                m == manifold(input),
                g.wf(),
                w == g.spec_width() == width_of(m),
                h == g.spec_height() == m.len(),
                forall|r: int, c: int|
                    0 <= r < m.len() && 0 <= c < width_of(m) ==> #[trigger] g.cell(r, c)
                        == m[r][c],
                row + 1 == r,
                r <= h,
                r < h ==> below@.len() == w,
                r < h ==> forall|c: int| 0 <= c < w ==> #[trigger] below@[c] == capped(
                    timelines(m, r as int, c),
                ),
                c <= w,
                first@.len() == c,
                forall|q: int|
                    0 <= q < c && !is_splitter(m, row as int, q) ==> #[trigger] first@[q] == capped(
                        timelines(m, row as int, q),
                    ),
            decreases w - c,
        {
            let split = splitter_at(&g, row, c as isize);
            assert(g.cell(row as int, c as int) == m[row as int][c as int]);
            if split {
                first.push(0);
            } else if r >= h {
                first.push(1);
            } else {
                first.push(below[c]);
            }
            c += 1;
        }
        let mut cur: Vec<u64> = Vec::new();
        let mut c: usize = 0;
        while c < w
            invariant
                m == manifold(input),
                manifold_ok(input),
                g.wf(),
                w == g.spec_width() == width_of(m),
                h == g.spec_height() == m.len(),
                forall|r: int, c: int|
                    0 <= r < m.len() && 0 <= c < width_of(m) ==> #[trigger] g.cell(r, c)
                        == m[r][c],
                row < h,
                first@.len() == w,
                forall|q: int|
                    0 <= q < w && !is_splitter(m, row as int, q) ==> #[trigger] first@[q] == capped(
                        timelines(m, row as int, q),
                    ),
                c <= w,
                cur@.len() == c,
                forall|q: int| 0 <= q < c ==> #[trigger] cur@[q] == capped(timelines(m, row as int, q)),
            decreases w - c,
        {
            let split = splitter_at(&g, row, c as isize);
            assert(g.cell(row as int, c as int) == m[row as int][c as int]);
            if split {
                assert(is_splitter(m, row as int, c as int));
                let a = first[c - 1];
                let b = first[c + 1];
                cur.push(a.saturating_add(b));
            } else {
                cur.push(first[c]);
            }
            c += 1;
        }
        below = cur;
        r = row;
    }
    let n = below[sc];
    if n == u64::MAX {
        return Err(InputError::TooLarge);
    }
    Ok(decimal_string(n))
}

} // verus!
