use crate::grid::{
    at, is_rectangular, is_row_scan, lemma_row_major_inj, neighbor_delta, paint, Grid, Pos,
};
use crate::text::{lemma_lines_nonempty, lines_of};
use vstd::prelude::*;
use vstd::string::StringSliceAdditionalSpecFns;

verus! {

/// Transposing twice gives back the grid: the same extents and the same element at every
/// position, padding ring included.
pub proof fn law_transpose_involution<T, const PAD: usize>(
    g: Grid<T, PAD>,
    t: Grid<T, PAD>,
    u: Grid<T, PAD>,
)
    requires
        g.wf(),
        t.is_transpose_of(&g),
        u.is_transpose_of(&t),
    ensures
        u.wf(),
        u.padded_width() == g.padded_width(),
        u.padded_height() == g.padded_height(),
        u.spec_width() == g.spec_width(),
        u.spec_height() == g.spec_height(),
        forall|r: int, c: int|
            -PAD <= r < g.spec_height() + PAD && -PAD <= c < g.spec_width() + PAD
                ==> #[trigger] u.cell(r, c) == g.cell(r, c),
{
    assert forall|r: int, c: int|
        -PAD <= r < g.spec_height() + PAD && -PAD <= c < g.spec_width() + PAD implies #[trigger] u.cell(
        r,
        c,
    ) == g.cell(r, c) by {
        assert(u.cell(r, c) == t.cell(c, r));
        assert(t.cell(c, r) == g.cell(r, c));
    }
}

/// A row scan of a `w` by `h` grid has `w * h` entries; each is a position of the grid, no
/// two are equal, every position of the grid is among them, and they come in row-major
/// order.
pub proof fn law_scan_completeness(ps: Seq<Pos>, w: int, h: int)
    requires
        0 <= w,
        0 <= h,
        w * h <= isize::MAX,
        is_row_scan(ps, w, h),
    ensures
        ps.len() == w * h,
        forall|k: int|
            0 <= k < ps.len() ==> 0 <= (#[trigger] ps[k]).r < h && 0 <= ps[k].c < w,
        forall|r: int, c: int|
            0 <= r < h && 0 <= c < w ==> #[trigger] at(ps, w, r, c) == Pos::spec_new(r, c),
        forall|r: int, c: int| 0 <= r < h && 0 <= c < w ==> 0 <= #[trigger] (r * w + c) < ps.len(),
        forall|k1: int, k2: int|
            0 <= k1 < k2 < ps.len() ==> (#[trigger] ps[k1]).r < (#[trigger] ps[k2]).r || (
            ps[k1].r == ps[k2].r && ps[k1].c < ps[k2].c),
        forall|k1: int, k2: int|
            0 <= k1 < ps.len() && 0 <= k2 < ps.len() && k1 != k2 ==> #[trigger] ps[k1]
                != #[trigger] ps[k2],
{
    assert forall|k: int| 0 <= k < ps.len() implies 0 <= (#[trigger] ps[k]).r < h && 0 <= ps[k].c
        < w && ps[k] == Pos::spec_new(k / w, k % w) && k == (k / w) * w + k % w by {
        decompose(k, w, h);
        assert(at(ps, w, k / w, k % w) == Pos::spec_new(k / w, k % w));
    }
    assert forall|k1: int, k2: int| 0 <= k1 < k2 < ps.len() implies (#[trigger] ps[k1]).r < (
    #[trigger] ps[k2]).r || (ps[k1].r == ps[k2].r && ps[k1].c < ps[k2].c) by {
        decompose(k1, w, h);
        decompose(k2, w, h);
        let (q1, q2) = (k1 / w, k2 / w);
        if q2 < q1 {
            assert(q2 * w + w <= q1 * w) by (nonlinear_arith)
                requires
                    q2 < q1,
                    w > 0,
            ;
        }
    }
    assert forall|k1: int, k2: int|
        0 <= k1 < ps.len() && 0 <= k2 < ps.len() && k1 != k2 implies #[trigger] ps[k1]
            != #[trigger] ps[k2] by {
        decompose(k1, w, h);
        decompose(k2, w, h);
        if ps[k1] == ps[k2] {
            lemma_row_major_inj(k1 / w, k1 % w, k2 / w, k2 % w, w);
        }
    }
    assert forall|r: int, c: int| 0 <= r < h && 0 <= c < w implies 0 <= #[trigger] (r * w + c)
        < ps.len() by {
        crate::grid::lemma_row_major(r, c, w, h);
        assert(h * w == w * h) by (nonlinear_arith);
    }
}

proof fn decompose(k: int, w: int, h: int)
    requires
        0 <= k < w * h,
        0 <= h,
        0 <= w,
        w * h <= isize::MAX,
    ensures
        w > 0,
        0 <= k / w < h,
        0 <= k % w < w,
        k == (k / w) * w + k % w,
        (k / w) as isize == k / w,
        (k % w) as isize == k % w,
{
    if w == 0 {
        assert(w * h == 0);
    }
    vstd::arithmetic::div_mod::lemma_fundamental_div_mod(k, w);
    assert(k / w < h) by (nonlinear_arith)
        requires
            0 <= k < w * h,
            w > 0,
            k == w * (k / w) + k % w,
            0 <= k % w,
    ;
    assert(w * (k / w) == (k / w) * w) by (nonlinear_arith);
    assert(w <= w * h) by (nonlinear_arith)
        requires
            0 <= k < w * h,
            w > 0,
            h >= 0,
    ;
}

/// Sum over the lines of their lengths plus one for each delimiter that ends them.
pub open spec fn total_len(ls: Seq<Seq<u8>>) -> int
    decreases ls.len(),
{
    if ls.len() == 0 {
        0
    } else {
        total_len(ls.drop_last()) + ls.last().len() + 1
    }
}

pub proof fn lemma_total_len(b: Seq<u8>, d: u8)
    ensures
        total_len(lines_of(b, d)) == b.len() + 1,
    decreases b.len(),
{
    if b.len() > 0 {
        lemma_total_len(b.drop_last(), d);
        lemma_lines_nonempty(b.drop_last(), d);
        let prev = lines_of(b.drop_last(), d);
        let ls = lines_of(b, d);
        if b.last() != d {
            assert(ls.drop_last() =~= prev.drop_last());
            assert(ls.last() == prev.last().push(b.last()));
            assert(total_len(prev) == total_len(prev.drop_last()) + prev.last().len() + 1);
        } else {
            assert(ls.drop_last() =~= prev);
            assert(ls.last().len() == 0);
        }
        assert(total_len(ls) == total_len(ls.drop_last()) + ls.last().len() + 1);
    } else {
        let ls = lines_of(b, d);
        assert(ls.drop_last() =~= Seq::<Seq<u8>>::empty());
        assert(total_len(Seq::<Seq<u8>>::empty()) == 0);
        assert(ls.last().len() == 0);
    }
}

proof fn lemma_total_uniform(ls: Seq<Seq<u8>>, w: int)
    requires
        forall|i: int| 0 <= i < ls.len() ==> #[trigger] ls[i].len() == w,
    ensures
        total_len(ls) == ls.len() * (w + 1),
    decreases ls.len(),
{
    if ls.len() > 0 {
        let p = ls.drop_last();
        assert forall|i: int| 0 <= i < p.len() implies #[trigger] p[i].len() == w by {
            assert(p[i] == ls[i]);
        }
        lemma_total_uniform(p, w);
        assert(ls.len() * (w + 1) == (ls.len() - 1) * (w + 1) + w + 1) by (nonlinear_arith);
    }
}

/// A text whose lines are all `uw` long has no more lines than its length divided by `uw`.
proof fn lemma_line_count(b: Seq<u8>, d: u8)
    requires
        lines_of(b, d)[0].len() > 0,
        is_rectangular(lines_of(b, d)),
    ensures
        lines_of(b, d).len() <= b.len() as int / (lines_of(b, d)[0].len() as int),
{
    let ls = lines_of(b, d);
    let uw = ls[0].len() as int;
    let l = ls.len() as int;
    let n = b.len() as int;
    lemma_lines_nonempty(b, d);
    lemma_total_len(b, d);
    lemma_total_uniform(ls, uw);
    vstd::arithmetic::div_mod::lemma_fundamental_div_mod(n, uw);
    assert(l <= n / uw) by (nonlinear_arith)
        requires
            l * (uw + 1) == n + 1,
            l >= 1,
            uw > 0,
            n == uw * (n / uw) + n % uw,
            n % uw < uw,
    ;
}

/// A cell outside the rows and columns that the lines are copied to keeps its value.
proof fn lemma_paint_ring(
    base: Seq<u8>,
    ls: Seq<Seq<u8>>,
    uw: int,
    pad: int,
    rho: int,
    kappa: int,
)
    requires
        uw >= 0,
        pad >= 0,
        rho >= 0,
        0 <= kappa < uw + 2 * pad,
        0 <= rho * (uw + 2 * pad) + kappa < base.len(),
        forall|i: int| 0 <= i < ls.len() ==> #[trigger] ls[i].len() <= uw,
        kappa < pad || kappa >= pad + uw || rho < pad || rho >= pad + ls.len(),
    ensures
        paint(base, ls, uw + 2 * pad, pad)[rho * (uw + 2 * pad) + kappa] == base[rho * (uw + 2
            * pad) + kappa],
    decreases ls.len(),
{
    if ls.len() > 0 {
        let w = uw + 2 * pad;
        let p = ls.drop_last();
        assert forall|i: int| 0 <= i < p.len() implies #[trigger] p[i].len() <= uw by {
            assert(p[i] == ls[i]);
        }
        lemma_paint_ring(base, p, uw, pad, rho, kappa);
        crate::grid::lemma_paint_len(base, p, w, pad);
        let idx = rho * w + kappa;
        let r = ls.len() - 1;
        let start = (r + pad) * w + pad;
        let end = start + ls.last().len();
        assert(ls.last().len() <= uw) by {
            assert(ls.last() == ls[r]);
        }
        if rho < r + pad {
            assert((rho + 1) * w <= (r + pad) * w) by (nonlinear_arith)
                requires
                    rho + 1 <= r + pad,
                    w >= 0,
            ;
            assert((rho + 1) * w == rho * w + w) by (nonlinear_arith);
        } else if rho > r + pad {
            assert((r + pad + 1) * w <= rho * w) by (nonlinear_arith)
                requires
                    r + pad + 1 <= rho,
                    w >= 0,
            ;
            assert((r + pad + 1) * w == (r + pad) * w + w) by (nonlinear_arith);
        }
    }
}

/// With one ring of padding around a grid built from text whose lines are all as long as
/// the first, each of the eight neighbours of each corner lies on the grid or its ring, and
/// those on the ring hold the fill value.
pub proof fn law_corner_neighbors(delimiter: u8, fill: u8, input: &str, g: Grid<u8, 1>)
    requires
        ({
            let b = input.spec_bytes();
            let ls = lines_of(b, delimiter);
            let uw = ls[0].len() as int;
            &&& ls.len() > 1
            &&& uw > 0
            &&& is_rectangular(ls)
            &&& g.wf()
            &&& g.spec_width() == uw
            &&& g.spec_height() == b.len() as int / uw
            &&& g.cells() == paint(Seq::new(g.cells().len(), |i: int| fill), ls, uw + 2, 1)
        }),
    ensures
        forall|p: Pos, k: int|
            #![trigger g.is_corner(p), neighbor_delta(k)]
            g.is_corner(p) && 0 <= k < 8 ==> {
                let q = Pos::spec_new(p.r + neighbor_delta(k).0, p.c + neighbor_delta(k).1);
                &&& g.in_range(q)
                &&& !g.in_logical(q) ==> g.cell(q.r as int, q.c as int) == fill
            },
{
    let b = input.spec_bytes();
    let ls = lines_of(b, delimiter);
    let uw = ls[0].len() as int;
    lemma_line_count(b, delimiter);
    assert forall|p: Pos, k: int|
        #![trigger g.is_corner(p), neighbor_delta(k)]
        g.is_corner(p) && 0 <= k < 8 implies {
            let q = Pos::spec_new(p.r + neighbor_delta(k).0, p.c + neighbor_delta(k).1);
            &&& g.in_range(q)
            &&& !g.in_logical(q) ==> g.cell(q.r as int, q.c as int) == fill
        } by {
        let q = Pos::spec_new(p.r + neighbor_delta(k).0, p.c + neighbor_delta(k).1);
        let rho = q.r + 1;
        let kappa = q.c + 1;
        if !g.in_logical(q) {
            assert forall|i: int| 0 <= i < ls.len() implies #[trigger] ls[i].len() <= uw by {}
            g.lemma_offset(q.r as int, q.c as int);
            lemma_paint_ring(
                Seq::new(g.cells().len(), |i: int| fill),
                ls,
                uw,
                1,
                rho as int,
                kappa as int,
            );
        }
    }
}

} // verus!
