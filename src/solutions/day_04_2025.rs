use crate::grid::{count_of, fits_grid, neighbor_delta, paint, Grid, Pos};
use crate::solution::{decimal, decimal_string, InputError};
use crate::text::lines_of;
use vstd::prelude::*;
use vstd::string::StringSliceAdditionalSpecFns;
use vstd::utf8::encode_utf8;

verus! {

/// The byte of a roll of paper.
pub const ROLL: u8 = 64;

/// The byte of an empty cell, also filling the ring around the map.
pub const EMPTY: u8 = 46;

/// The cell at logical (`r`, `c`) of a map stored `pw` bytes wide inside one ring of padding.
pub open spec fn lcell(cells: Seq<u8>, pw: int, r: int, c: int) -> u8 {
    cells[(r + 1) * pw + (c + 1)]
}

/// Rolls among the first `k` neighbours of (`r`, `c`).
pub open spec fn rolls_around(cells: Seq<u8>, pw: int, r: int, c: int, k: int) -> nat
    decreases k,
{
    if k <= 0 {
        0
    } else {
        rolls_around(cells, pw, r, c, k - 1) + if lcell(
            cells,
            pw,
            r + neighbor_delta(k - 1).0,
            c + neighbor_delta(k - 1).1,
        ) == ROLL {
            1nat
        } else {
            0nat
        }
    }
}

/// A forklift can reach the roll at (`r`, `c`): fewer than four of its eight neighbours
/// are rolls.
pub open spec fn accessible(cells: Seq<u8>, pw: int, r: int, c: int) -> bool {
    lcell(cells, pw, r, c) == ROLL && rolls_around(cells, pw, r, c, 8) < 4
}

/// Accessible rolls among the first `n` cells of row `r`.
pub open spec fn accessible_in_row(cells: Seq<u8>, pw: int, r: int, n: int) -> nat
    decreases n,
{
    if n <= 0 {
        0
    } else {
        accessible_in_row(cells, pw, r, n - 1) + if accessible(cells, pw, r, n - 1) {
            1nat
        } else {
            0nat
        }
    }
}

/// Accessible rolls in the first `m` rows of a map `w` cells wide.
pub open spec fn accessible_count(cells: Seq<u8>, pw: int, w: int, m: int) -> nat
    decreases m,
{
    if m <= 0 {
        0
    } else {
        accessible_count(cells, pw, w, m - 1) + accessible_in_row(cells, pw, m - 1, w)
    }
}

/// The map once every roll accessible in it has been taken away at once.
pub open spec fn clear_accessible(cells: Seq<u8>, pw: int, w: int, h: int) -> Seq<u8> {
    Seq::new(
        cells.len(),
        |i: int|
            if 1 <= i / pw <= h && 1 <= i % pw <= w && accessible(
                cells,
                pw,
                i / pw - 1,
                i % pw - 1,
            ) {
                EMPTY
            } else {
                cells[i]
            },
    )
}

/// Rolls taken away in at most `rounds` rounds, each taking every roll accessible at its
/// start, stopping at the first round that finds none.
pub open spec fn removed(cells: Seq<u8>, pw: int, w: int, h: int, rounds: nat) -> nat
    decreases rounds,
{
    if rounds == 0 {
        0
    } else {
        let a = accessible_count(cells, pw, w, h);
        if a == 0 {
            0
        } else {
            a + removed(clear_accessible(cells, pw, w, h), pw, w, h, (rounds - 1) as nat)
        }
    }
}

/// The input reads as a map: a first line that is not empty and a newline after it.
pub open spec fn map_ok(input: String) -> bool {
    let b = encode_utf8(input@);
    let ls = lines_of(b, 10);
    let uw = ls[0].len() as int;
    ls.len() > 1 && uw > 0 && fits_grid(uw + 2, b.len() as int / uw + 2)
}

/// Width of the map.
pub open spec fn map_width(input: String) -> int {
    lines_of(encode_utf8(input@), 10)[0].len() as int
}

/// Height of the map: the input's length divided by its width.
pub open spec fn map_height(input: String) -> int {
    encode_utf8(input@).len() as int / map_width(input)
}

/// The map with its ring of empty cells, row by row.
pub open spec fn map_cells(input: String) -> Seq<u8> {
    let pw = map_width(input) + 2;
    paint(
        Seq::new(((map_height(input) + 2) * pw) as nat, |i: int| EMPTY),
        lines_of(encode_utf8(input@), 10),
        pw,
        1,
    )
}

fn read_map(input: &String) -> (r: Result<Grid<u8, 1>, InputError>)
    ensures
        r is Ok <==> map_ok(*input),
        r matches Ok(g) ==> {
            &&& g.wf()
            &&& g.spec_width() == map_width(*input)
            &&& g.spec_height() == map_height(*input)
            &&& g.padded_width() == map_width(*input) + 2
            &&& g.cells() == map_cells(*input)
        },
        r matches Err(e) ==> e == InputError::Malformed,
{
    match Grid::<u8, 1>::from_string_with_padding(10, EMPTY, input.as_str()) {
        Ok(g) => {
            assert(g.padded_width() * g.padded_height() == g.padded_height() * g.padded_width())
                by (nonlinear_arith);
            assert(g.cells().len() == (map_height(*input) + 2) * (map_width(*input) + 2));
            assert(Seq::new(g.cells().len(), |i: int| EMPTY) =~= Seq::new(
                ((map_height(*input) + 2) * (map_width(*input) + 2)) as nat,
                |i: int| EMPTY,
            ));
            Ok(g)
        },
        Err(_) => Err(InputError::Malformed),
    }
}

/// Whether the roll at `p` is accessible.
fn is_accessible(g: &Grid<u8, 1>, p: Pos) -> (a: bool)
    requires
        g.wf(),
        g.in_logical(p),
    ensures
        a == accessible(g.cells(), g.padded_width(), p.r as int, p.c as int),
{
    if *g.index(p) != ROLL {
        return false;
    }
    let ns = p.neighbors8();
    assert(forall|j: int|
        0 <= j < 8 ==> #[trigger] ns@[j].r == p.r + neighbor_delta(j).0 && ns@[j].c == p.c
            + neighbor_delta(j).1);
    let mut n: u8 = 0;
    let mut k: usize = 0;
    while k < 8
        invariant
            g.wf(),
            g.in_logical(p),
            k <= 8,
            n <= k,
            forall|j: int|
                0 <= j < 8 ==> #[trigger] ns@[j].r == p.r + neighbor_delta(j).0 && ns@[j].c
                    == p.c + neighbor_delta(j).1,
            n == rolls_around(g.cells(), g.padded_width(), p.r as int, p.c as int, k as int),
        decreases 8 - k,
    {
        let q = ns[k];
        assert(q.r == p.r + neighbor_delta(k as int).0);
        assert(q.c == p.c + neighbor_delta(k as int).1);
        if *g.index(q) == ROLL {
            n += 1;
        }
        k += 1;
    }
    n < 4
}

/// Number of rolls of paper that a forklift can reach.
pub fn part1(input: String) -> (r: Result<String, InputError>)
    ensures
        r is Ok <==> map_ok(input),
        r matches Ok(s) ==> s@ == decimal(
            accessible_count(
                map_cells(input),
                map_width(input) + 2,
                map_width(input),
                map_height(input),
            ),
        ),
        r matches Err(e) ==> e == InputError::Malformed,
{
    let g = read_map(&input)?;
    let ghost cells = g.cells();
    let ghost pw = g.padded_width();
    let w = g.width();
    let h = g.height();
    let mut total: usize = 0;
    let mut r: usize = 0;
    while r < h
        invariant
            g.wf(),
            cells == g.cells(),
            pw == g.padded_width(),
            w == g.spec_width(),
            h == g.spec_height(),
            r <= h,
            total == accessible_count(cells, pw, w as int, r as int),
            total <= r * w,
        decreases h - r,
    {
        let mut c: usize = 0;
        let mut row: usize = 0;
        while c < w
            invariant
                g.wf(),
                cells == g.cells(),
                pw == g.padded_width(),
                w == g.spec_width(),
                h == g.spec_height(),
                r < h,
                c <= w,
                row == accessible_in_row(cells, pw, r as int, c as int),
                row <= c,
            decreases w - c,
        {
            if is_accessible(&g, Pos { r: r as isize, c: c as isize }) {
                row += 1;
            }
            c += 1;
        }
        assert((r + 1) * w == r * w + w) by (nonlinear_arith);
        assert(r * w + w <= h * w) by (nonlinear_arith)
            requires
                r < h,
        ;
        assert(h * w <= g.padded_height() * g.padded_width()) by (nonlinear_arith)
            requires
                h <= g.padded_height(),
                w <= g.padded_width(),
                h >= 0,
                w >= 0,
        ;
        assert(g.padded_height() * g.padded_width() == g.padded_width() * g.padded_height())
            by (nonlinear_arith);
        total = total + row;
        r += 1;
    }
    Ok(decimal_string(total as u64))
}

/// Offset of the logical position `p` in a map stored `pw` bytes wide with one ring.
pub open spec fn offset_of(p: Pos, pw: int) -> int {
    (p.r + 1) * pw + (p.c + 1)
}

/// One of the first `t` positions of `ps` lies at offset `i`.
pub open spec fn hit(ps: Seq<Pos>, t: int, pw: int, i: int) -> bool {
    exists|j: int| 0 <= j < t && #[trigger] offset_of(ps[j], pw) == i
}

/// Every roll that a forklift can reach, row by row.
fn accessible_rolls(g: &Grid<u8, 1>) -> (found: Vec<Pos>)
    requires
        g.wf(),
    ensures
        found@.len() == accessible_count(
            g.cells(),
            g.padded_width(),
            g.spec_width(),
            g.spec_height(),
        ),
        forall|j: int|
            0 <= j < found@.len() ==> g.in_logical(#[trigger] found@[j]) && accessible(
                g.cells(),
                g.padded_width(),
                found@[j].r as int,
                found@[j].c as int,
            ),
        forall|r: int, c: int|
            0 <= r < g.spec_height() && 0 <= c < g.spec_width() && #[trigger] accessible(
                g.cells(),
                g.padded_width(),
                r,
                c,
            ) ==> exists|j: int| 0 <= j < found@.len() && found@[j] == Pos::spec_new(r, c),
{
    let ghost cells = g.cells();
    let ghost pw = g.padded_width();
    let w = g.width();
    let h = g.height();
    let mut found: Vec<Pos> = Vec::new();
    let mut r: usize = 0;
    while r < h
        invariant
            g.wf(),
            cells == g.cells(),
            pw == g.padded_width(),
            w == g.spec_width(),
            h == g.spec_height(),
            r <= h,
            found@.len() == accessible_count(cells, pw, w as int, r as int),
            found@.len() <= r * w,
            forall|j: int|
                0 <= j < found@.len() ==> g.in_logical(#[trigger] found@[j]) && accessible(
                    cells,
                    pw,
                    found@[j].r as int,
                    found@[j].c as int,
                ),
            forall|r2: int, c2: int|
                0 <= r2 < r && 0 <= c2 < w && #[trigger] accessible(cells, pw, r2, c2) ==> exists|
                    j: int,
                | 0 <= j < found@.len() && found@[j] == Pos::spec_new(r2, c2),
        decreases h - r,
    {
        let ghost before = found@.len();
        assert((r + 1) * w == r * w + w) by (nonlinear_arith);
        assert(r * w + w <= h * w) by (nonlinear_arith)
            requires
                r < h,
        ;
        assert(h * w <= g.padded_height() * g.padded_width()) by (nonlinear_arith)
            requires
                h <= g.padded_height(),
                w <= g.padded_width(),
                h >= 0,
                w >= 0,
        ;
        assert(g.padded_height() * g.padded_width() == g.padded_width() * g.padded_height())
            by (nonlinear_arith);
        let mut c: usize = 0;
        while c < w
            invariant
                g.wf(),
                cells == g.cells(),
                pw == g.padded_width(),
                w == g.spec_width(),
                h == g.spec_height(),
                r < h,
                c <= w,
                before + w <= isize::MAX,
                found@.len() == before + accessible_in_row(cells, pw, r as int, c as int),
                accessible_in_row(cells, pw, r as int, c as int) <= c,
                forall|j: int|
                    0 <= j < found@.len() ==> g.in_logical(#[trigger] found@[j]) && accessible(
                        cells,
                        pw,
                        found@[j].r as int,
                        found@[j].c as int,
                    ),
                forall|r2: int, c2: int|
                    0 <= r2 < r && 0 <= c2 < w && #[trigger] accessible(cells, pw, r2, c2)
                        ==> exists|j: int| 0 <= j < found@.len() && found@[j] == Pos::spec_new(r2, c2),
                forall|c2: int|
                    0 <= c2 < c && #[trigger] accessible(cells, pw, r as int, c2) ==> exists|
                        j: int,
                    | 0 <= j < found@.len() && found@[j] == Pos::spec_new(r as int, c2),
            decreases w - c,
        {
            let p = Pos { r: r as isize, c: c as isize };
            if is_accessible(g, p) {
                let ghost old_found = found@;
                found.push(p);
                assert forall|r2: int, c2: int|
                    0 <= r2 < r && 0 <= c2 < w && #[trigger] accessible(cells, pw, r2, c2)
                        implies exists|j: int|
                    0 <= j < found@.len() && found@[j] == Pos::spec_new(r2, c2) by {
                    let j = choose|j: int|
                        0 <= j < old_found.len() && old_found[j] == Pos::spec_new(r2, c2);
                    assert(found@[j] == old_found[j]);
                }
                assert forall|c2: int|
                    0 <= c2 < c + 1 && #[trigger] accessible(cells, pw, r as int, c2) implies exists|
                    j: int,
                | 0 <= j < found@.len() && found@[j] == Pos::spec_new(r as int, c2) by {
                    if c2 < c {
                        let j = choose|j: int|
                            0 <= j < old_found.len() && old_found[j] == Pos::spec_new(r as int, c2);
                        assert(found@[j] == old_found[j]);
                    } else {
                        assert(found@[old_found.len() as int] == Pos::spec_new(r as int, c2));
                    }
                }
            }
            c += 1;
        }
        r += 1;
    }
    found
}

/// Takes away the rolls at `found`, which are exactly the accessible ones.
fn clear_rolls(g: &mut Grid<u8, 1>, found: &Vec<Pos>)
    requires
        old(g).wf(),
        forall|j: int|
            0 <= j < found@.len() ==> old(g).in_logical(#[trigger] found@[j]) && accessible(
                old(g).cells(),
                old(g).padded_width(),
                found@[j].r as int,
                found@[j].c as int,
            ),
        forall|r: int, c: int|
            0 <= r < old(g).spec_height() && 0 <= c < old(g).spec_width() && #[trigger] accessible(
                old(g).cells(),
                old(g).padded_width(),
                r,
                c,
            ) ==> exists|j: int| 0 <= j < found@.len() && found@[j] == Pos::spec_new(r, c),
    ensures
        final(g).wf(),
        final(g).padded_width() == old(g).padded_width(),
        final(g).padded_height() == old(g).padded_height(),
        final(g).cells() == clear_accessible(
            old(g).cells(),
            old(g).padded_width(),
            old(g).spec_width(),
            old(g).spec_height(),
        ),
{
    let ghost start = g.cells();
    let ghost pw = g.padded_width();
    let ghost w = g.spec_width();
    let ghost h = g.spec_height();
    let mut t: usize = 0;
    while t < found.len()
        invariant
            g.wf(),
            g.padded_width() == pw,
            g.spec_width() == w,
            g.spec_height() == h,
            g.cells().len() == start.len(),
            t <= found@.len(),
            forall|j: int| 0 <= j < found@.len() ==> g.in_logical(#[trigger] found@[j]),
            forall|i: int|
                0 <= i < start.len() ==> #[trigger] g.cells()[i] == if hit(found@, t as int, pw, i) {
                    EMPTY
                } else {
                    start[i]
                },
        decreases found@.len() - t,
    {
        let p = found[t];
        let ghost before = g.cells();
        proof {
            g.lemma_offset(p.r as int, p.c as int);
        }
        g.set(p, EMPTY);
        assert forall|i: int| 0 <= i < start.len() implies #[trigger] g.cells()[i] == if hit(
            found@,
            t + 1,
            pw,
            i,
        ) {
            EMPTY
        } else {
            start[i]
        } by {
            if i == offset_of(p, pw) {
                assert(offset_of(found@[t as int], pw) == i);
            } else {
                if hit(found@, t + 1, pw, i) {
                    let j = choose|j: int| 0 <= j < t + 1 && #[trigger] offset_of(found@[j], pw) == i;
                    assert(j < t);
                }
                assert(before[i] == g.cells()[i]);
            }
        }
        t += 1;
    }
    assert forall|i: int| 0 <= i < start.len() implies #[trigger] g.cells()[i] == clear_accessible(
        start,
        pw,
        w,
        h,
    )[i] by {
        vstd::arithmetic::div_mod::lemma_fundamental_div_mod(i, pw);
        let (q, m) = (i / pw, i % pw);
        if hit(found@, found@.len() as int, pw, i) {
            let j = choose|j: int|
                0 <= j < found@.len() && #[trigger] offset_of(found@[j], pw) == i;
            let f = found@[j];
            vstd::arithmetic::div_mod::lemma_fundamental_div_mod_converse(
                i,
                pw,
                f.r + 1,
                f.c + 1,
            );
        } else if 1 <= q <= h && 1 <= m <= w && accessible(start, pw, q - 1, m - 1) {
            let j = choose|j: int|
                0 <= j < found@.len() && found@[j] == Pos::spec_new(q - 1, m - 1);
            assert(found@[j].r == q - 1 && found@[j].c == m - 1);
            assert(pw * q == q * pw) by (nonlinear_arith);
            assert(offset_of(found@[j], pw) == i);
        }
    }
    assert(g.cells() =~= clear_accessible(start, pw, w, h));
}

/// Number of rolls taken away when, round after round, every roll that a forklift can reach
/// is taken away; there are as many rounds at most as rolls in the map.
pub fn part2(input: String) -> (r: Result<String, InputError>)
    ensures
        r is Ok <==> map_ok(input) && removed(
            map_cells(input),
            map_width(input) + 2,
            map_width(input),
            map_height(input),
            count_of(map_cells(input), ROLL),
        ) <= u64::MAX,
        r matches Ok(s) ==> s@ == decimal(
            removed(
                map_cells(input),
                map_width(input) + 2,
                map_width(input),
                map_height(input),
                count_of(map_cells(input), ROLL),
            ),
        ),
        r matches Err(e) ==> e == if map_ok(input) {
            InputError::TooLarge
        } else {
            InputError::Malformed
        },
{
    let mut g = read_map(&input)?;
    let ghost pw = g.padded_width();
    let ghost w = g.spec_width();
    let ghost h = g.spec_height();
    let ghost initial = g.cells();
    let mut rounds = g.count_eq(ROLL);
    let ghost all = removed(initial, pw, w, h, rounds as nat);
    assert(all == removed(
        map_cells(input),
        map_width(input) + 2,
        map_width(input),
        map_height(input),
        count_of(map_cells(input), ROLL),
    ));
    let mut total: u64 = 0;
    while rounds > 0
        invariant
            g.wf(),
            g.padded_width() == pw,
            g.spec_width() == w,
            g.spec_height() == h,
            map_ok(input),
            all == removed(
                map_cells(input),
                map_width(input) + 2,
                map_width(input),
                map_height(input),
                count_of(map_cells(input), ROLL),
            ),
            total + removed(g.cells(), pw, w, h, rounds as nat) == all,
        ensures
            total == all,
        decreases rounds,
    {
        let found = accessible_rolls(&g);
        let ghost cur = g.cells();
        assert(removed(cur, pw, w, h, rounds as nat) == if accessible_count(cur, pw, w, h) == 0 {
            0
        } else {
            accessible_count(cur, pw, w, h) + removed(
                clear_accessible(cur, pw, w, h),
                pw,
                w,
                h,
                (rounds - 1) as nat,
            )
        });
        if found.len() == 0 {
            assert(removed(cur, pw, w, h, rounds as nat) == 0);
            break;
        }
        let n = found.len() as u64;
        if total > u64::MAX - n {
            return Err(InputError::TooLarge);
        }
        clear_rolls(&mut g, &found);
        total = total + n;
        rounds = rounds - 1;
    }
    assert(total == all);
    Ok(decimal_string(total))
}

/// `t` holds a roll only where `s` does.
pub open spec fn rolls_within(t: Seq<u8>, s: Seq<u8>) -> bool {
    t.len() == s.len() && forall|i: int| 0 <= i < s.len() && #[trigger] t[i] == ROLL ==> s[i] == ROLL
}

proof fn lemma_count_within(t: Seq<u8>, s: Seq<u8>, k: int)
    requires
        rolls_within(t, s),
        0 <= k < s.len(),
        s[k] == ROLL,
        t[k] != ROLL,
    ensures
        count_of(t, ROLL) < count_of(s, ROLL),
    decreases s.len(),
{
    let (t1, s1) = (t.drop_last(), s.drop_last());
    assert(rolls_within(t1, s1)) by {
        assert forall|i: int| 0 <= i < s1.len() && #[trigger] t1[i] == ROLL implies s1[i] == ROLL by {
            assert(t1[i] == t[i] && s1[i] == s[i]);
        }
    }
    if k < s.len() - 1 {
        lemma_count_within(t1, s1, k);
    } else {
        lemma_count_le_within(t1, s1);
    }
}

proof fn lemma_count_le_within(t: Seq<u8>, s: Seq<u8>)
    requires
        rolls_within(t, s),
    ensures
        count_of(t, ROLL) <= count_of(s, ROLL),
    decreases s.len(),
{
    if s.len() > 0 {
        let (t1, s1) = (t.drop_last(), s.drop_last());
        assert(rolls_within(t1, s1)) by {
            assert forall|i: int| 0 <= i < s1.len() && #[trigger] t1[i] == ROLL implies s1[i]
                == ROLL by {
                assert(t1[i] == t[i] && s1[i] == s[i]);
            }
        }
        lemma_count_le_within(t1, s1);
        assert(t.last() == t[s.len() - 1] && s.last() == s[s.len() - 1]);
    }
}

proof fn lemma_row_has_accessible(cells: Seq<u8>, pw: int, r: int, n: int) -> (c: int)
    requires
        accessible_in_row(cells, pw, r, n) > 0,
    ensures
        0 <= c < n,
        accessible(cells, pw, r, c),
    decreases n,
{
    if accessible(cells, pw, r, n - 1) {
        n - 1
    } else {
        lemma_row_has_accessible(cells, pw, r, n - 1)
    }
}

proof fn lemma_has_accessible(cells: Seq<u8>, pw: int, w: int, m: int) -> (p: (int, int))
    requires
        accessible_count(cells, pw, w, m) > 0,
    ensures
        0 <= p.0 < m,
        0 <= p.1 < w,
        accessible(cells, pw, p.0, p.1),
    decreases m,
{
    if accessible_in_row(cells, pw, m - 1, w) > 0 {
        let c = lemma_row_has_accessible(cells, pw, m - 1, w);
        (m - 1, c)
    } else {
        lemma_has_accessible(cells, pw, w, m - 1)
    }
}

/// Taking away every accessible roll leaves fewer rolls, when there is one to take.
proof fn lemma_clear_fewer(cells: Seq<u8>, pw: int, w: int, h: int)
    requires
        accessible_count(cells, pw, w, h) > 0,
        w + 2 == pw,
        (h + 2) * pw == cells.len(),
        w >= 0,
    ensures
        count_of(clear_accessible(cells, pw, w, h), ROLL) < count_of(cells, ROLL),
{
    let t = clear_accessible(cells, pw, w, h);
    let (r, c) = lemma_has_accessible(cells, pw, w, h);
    let k = (r + 1) * pw + (c + 1);
    crate::grid::lemma_row_major(r + 1, c + 1, pw, h + 2);
    vstd::arithmetic::div_mod::lemma_fundamental_div_mod_converse(k, pw, r + 1, c + 1);
    assert(t[k] == EMPTY);
    lemma_count_within(t, cells, k);
}

/// More rounds than there are rolls take away no more: once the rounds are at least the
/// number of rolls left, the count of rolls taken away is that of the process run to its end.
pub proof fn lemma_rounds_suffice(cells: Seq<u8>, pw: int, w: int, h: int, n: nat)
    requires
        w + 2 == pw,
        (h + 2) * pw == cells.len(),
        w >= 0,
        n >= count_of(cells, ROLL),
    ensures
        removed(cells, pw, w, h, n) == removed(cells, pw, w, h, n + 1),
    decreases n,
{
    let a = accessible_count(cells, pw, w, h);
    if a > 0 {
        lemma_clear_fewer(cells, pw, w, h);
        let t = clear_accessible(cells, pw, w, h);
        assert(t.len() == cells.len());
        if n > 0 {
            lemma_rounds_suffice(t, pw, w, h, (n - 1) as nat);
        }
    }
}

} // verus!
