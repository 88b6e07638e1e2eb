use crate::parse::{parse_u64, u64_of};
use crate::solution::{decimal, decimal_string, InputError};
use crate::grid_laws::{lemma_total_len, total_len};
use crate::text::{lemma_lines_nonempty, lines_of, split_lines};
use vstd::prelude::*;
use vstd::string::StringSliceAdditionalSpecFns;
use vstd::utf8::encode_utf8;

verus! {

/// The decimal digits of `x`, least significant first.
pub open spec fn digits_of(x: nat) -> Seq<nat>
    decreases x,
{
    if x < 10 {
        seq![x]
    } else {
        seq![x % 10] + digits_of(x / 10)
    }
}

/// The digits of `x` are a block of `d` digits repeated, `d` a proper divisor of their
/// number.
pub open spec fn repeats_block(x: nat, d: nat) -> bool {
    let s = digits_of(x);
    &&& 1 <= d < s.len()
    &&& s.len() % d == 0
    &&& forall|i: int| 0 <= i < s.len() - d ==> #[trigger] s[i] == s[i + d]
}

/// The digits of `x` are some block repeated exactly twice.
pub open spec fn is_doubled(x: nat) -> bool {
    digits_of(x).len() % 2 == 0 && repeats_block(x, digits_of(x).len() / 2)
}

/// The digits of `x` are some block repeated at least twice.
pub open spec fn is_repeated(x: nat) -> bool {
    exists|d: nat| repeats_block(x, d)
}

pub open spec fn is_ascii_blank(c: u8) -> bool {
    c == 32 || c == 9 || c == 10 || c == 12 || c == 13
}

/// `s` without the ASCII white space around it.
pub open spec fn trim_blank(s: Seq<u8>) -> Seq<u8>
    decreases s.len(),
{
    if s.len() > 0 && is_ascii_blank(s[0]) {
        trim_blank(s.skip(1))
    } else if s.len() > 0 && is_ascii_blank(s.last()) {
        trim_blank(s.drop_last())
    } else {
        s
    }
}

/// The range that a piece `lo-hi` spells, each bound trimmed of white space.
pub open spec fn range_of(p: Seq<u8>) -> Option<(u64, u64)> {
    let halves = lines_of(p, 45);
    if halves.len() < 2 {
        None
    } else {
        let lo = u64_of(trim_blank(halves[0]));
        let hi = u64_of(trim_blank(p.skip((halves[0].len() + 1) as int)));
        if lo is Some && hi is Some {
            Some((lo->0, hi->0))
        } else {
            None
        }
    }
}

/// The pieces of the input, cut at commas.
pub open spec fn id_pieces(input: String) -> Seq<Seq<u8>> {
    lines_of(encode_utf8(input@), 44)
}

pub open spec fn ranges_ok(input: String) -> bool {
    forall|i: int| 0 <= i < id_pieces(input).len() ==> (#[trigger] range_of(id_pieces(input)[i])) is Some
}

pub open spec fn id_ranges(input: String) -> Seq<(u64, u64)> {
    id_pieces(input).map_values(|p: Seq<u8>| range_of(p)->0)
}

/// Sum of the IDs from `lo` up to `n - 1` whose digits are a block repeated twice.
pub open spec fn doubled_sum(lo: int, n: int) -> nat
    decreases n - lo,
{
    if n <= lo {
        0
    } else {
        doubled_sum(lo, n - 1) + if is_doubled((n - 1) as nat) {
            (n - 1) as nat
        } else {
            0
        }
    }
}

/// Sum over the first `k` ranges of their IDs whose digits are a block repeated twice.
pub open spec fn doubled_total(rs: Seq<(u64, u64)>, k: int) -> nat
    decreases k,
{
    if k <= 0 {
        0
    } else {
        doubled_total(rs, k - 1) + doubled_sum(rs[k - 1].0 as int, rs[k - 1].1 + 1)
    }
}

/// `x` lies in one of the first `i` ranges.
pub open spec fn in_earlier(rs: Seq<(u64, u64)>, i: int, x: int) -> bool {
    exists|j: int| 0 <= j < i && (#[trigger] rs[j]).0 <= x <= rs[j].1
}

/// Sum of the IDs from `lo` up to `n - 1` whose digits are a block repeated at least twice,
/// leaving out those of the first `i` ranges.
pub open spec fn repeated_sum(rs: Seq<(u64, u64)>, i: int, lo: int, n: int) -> nat
    decreases n - lo,
{
    if n <= lo {
        0
    } else {
        repeated_sum(rs, i, lo, n - 1) + if is_repeated((n - 1) as nat) && !in_earlier(
            rs,
            i,
            n - 1,
        ) {
            (n - 1) as nat
        } else {
            0
        }
    }
}

/// Sum of the IDs of the first `k` ranges, each counted once, whose digits are a block
/// repeated at least twice.
pub open spec fn repeated_total(rs: Seq<(u64, u64)>, k: int) -> nat
    decreases k,
{
    if k <= 0 {
        0
    } else {
        repeated_total(rs, k - 1) + repeated_sum(rs, k - 1, rs[k - 1].0 as int, rs[k - 1].1 + 1)
    }
}

/// The decimal digits of `x`, least significant first.
fn digits(x: u64) -> (r: Vec<u8>)
    ensures
        r@.len() == digits_of(x as nat).len(),
        forall|i: int| 0 <= i < r@.len() ==> #[trigger] r@[i] as nat == digits_of(x as nat)[i],
{
    let mut out: Vec<u8> = Vec::new();
    let mut y = x;
    let ghost mut done: Seq<nat> = Seq::empty();
    while y >= 10
        invariant
            done + digits_of(y as nat) == digits_of(x as nat),
            out@.len() == done.len(),
            forall|i: int| 0 <= i < done.len() ==> #[trigger] out@[i] as nat == done[i],
        decreases y,
    {
        let d = (y % 10) as u8;
        proof {
            assert(done.push((y % 10) as nat) + digits_of((y / 10) as nat) =~= done + digits_of(y as nat));
            done = done.push((y % 10) as nat);
        }
        out.push(d);
        y = y / 10;
    }
    proof {
        assert(done.push(y as nat) =~= done + digits_of(y as nat));
        done = done.push(y as nat);
    }
    out.push(y as u8);
    out
}

/// Whether the digits `s` repeat with period `d`, `d` a proper divisor of their number.
fn has_period(s: &Vec<u8>, d: usize) -> (r: bool)
    requires
        1 <= d,
    ensures
        r == (d < s@.len() && s@.len() % (d as nat) == 0 && forall|i: int|
            0 <= i < s@.len() - d ==> #[trigger] s@[i] == s@[i + d]),
{
    let n = s.len();
    if d >= n || n % d != 0 {
        return false;
    }
    let mut i: usize = 0;
    while i < n - d
        invariant
            n == s@.len(),
            d < n,
            i <= n - d,
            forall|q: int| 0 <= q < i ==> #[trigger] s@[q] == s@[q + d],
        decreases n - d - i,
    {
        if s[i] != s[i + d] {
            return false;
        }
        i += 1;
    }
    true
}

proof fn lemma_block_from_digits(x: nat, s: Seq<u8>, d: nat)
    requires
        s.len() == digits_of(x).len(),
        forall|i: int| 0 <= i < s.len() ==> #[trigger] s[i] as nat == digits_of(x)[i],
    ensures
        repeats_block(x, d) == (1 <= d < s.len() && s.len() % d == 0 && forall|i: int|
            0 <= i < s.len() - d ==> #[trigger] s[i] == s[i + d]),
{
    let t = digits_of(x);
    if 1 <= d < s.len() && s.len() % d == 0 {
        if forall|i: int| 0 <= i < s.len() - d ==> #[trigger] s[i] == s[i + d] {
            assert forall|i: int| 0 <= i < t.len() - d implies #[trigger] t[i] == t[i + d] by {
                assert(s[i] as nat == t[i]);
                assert(s[i + d] as nat == t[i + d]);
            }
        }
        if forall|i: int| 0 <= i < t.len() - d ==> #[trigger] t[i] == t[i + d] {
            assert forall|i: int| 0 <= i < s.len() - d implies #[trigger] s[i] == s[i + d] by {
                assert(s[i] as nat == t[i]);
                assert(s[i + d] as nat == t[i + d]);
            }
        }
    }
}

/// Whether the digits of `x` are some block repeated exactly twice.
fn doubled(x: u64) -> (r: bool)
    ensures
        r == is_doubled(x as nat),
{
    let s = digits(x);
    let n = s.len();
    proof {
        lemma_block_from_digits(x as nat, s@, (n / 2) as nat);
    }
    n % 2 == 0 && n >= 2 && has_period(&s, n / 2)
}

/// Whether the digits of `x` are some block repeated at least twice.
fn repeated(x: u64) -> (r: bool)
    ensures
        r == is_repeated(x as nat),
{
    let s = digits(x);
    let n = s.len();
    let mut d: usize = 1;
    while d < n
        invariant
            n == s@.len(),
            s@.len() == digits_of(x as nat).len(),
            forall|i: int| 0 <= i < s@.len() ==> #[trigger] s@[i] as nat == digits_of(x as nat)[i],
            1 <= d,
            forall|e: nat| e < d ==> !repeats_block(x as nat, e),
        decreases n - d,
    {
        proof {
            lemma_block_from_digits(x as nat, s@, d as nat);
        }
        if has_period(&s, d) {
            return true;
        }
        d += 1;
    }
    assert forall|e: nat| !repeats_block(x as nat, e) by {
        if e >= d {
            assert(digits_of(x as nat).len() == n);
        }
    }
    false
}

proof fn lemma_trim_front(s: Seq<u8>, a: int)
    requires
        0 <= a <= s.len(),
        forall|i: int| 0 <= i < a ==> is_ascii_blank(#[trigger] s[i]),
    ensures
        trim_blank(s) == trim_blank(s.skip(a)),
    decreases a,
{
    if a > 0 {
        assert(s.skip(1).skip(a - 1) =~= s.skip(a));
        assert forall|i: int| 0 <= i < a - 1 implies is_ascii_blank(#[trigger] s.skip(1)[i]) by {
            assert(s.skip(1)[i] == s[i + 1]);
        }
        lemma_trim_front(s.skip(1), a - 1);
    } else {
        assert(s.skip(0) =~= s);
    }
}

proof fn lemma_trim_back(t: Seq<u8>, b: int)
    requires
        0 <= b <= t.len(),
        t.len() > 0 ==> !is_ascii_blank(t[0]),
        t.len() > 0 ==> b >= 1,
        forall|i: int| b <= i < t.len() ==> is_ascii_blank(#[trigger] t[i]),
        b >= 1 ==> !is_ascii_blank(t[b - 1]),
    ensures
        trim_blank(t) == t.take(b),
    decreases t.len() - b,
{
    if b < t.len() {
        let u = t.drop_last();
        assert forall|i: int| b <= i < u.len() implies is_ascii_blank(#[trigger] u[i]) by {
            assert(u[i] == t[i]);
        }
        lemma_trim_back(u, b);
        assert(u.take(b) =~= t.take(b));
    } else {
        assert(t.take(b) =~= t);
    }
}

/// `s` without the ASCII white space around it.
fn trim_bytes(s: &[u8]) -> (r: Vec<u8>)
    ensures
        r@ == trim_blank(s@),
{
    let n = s.len();
    let mut a: usize = 0;
    while a < n && (s[a] == 32 || s[a] == 9 || s[a] == 10 || s[a] == 12 || s[a] == 13)
        invariant
            n == s@.len(),
            a <= n,
            forall|i: int| 0 <= i < a ==> is_ascii_blank(#[trigger] s@[i]),
        decreases n - a,
    {
        a += 1;
    }
    let mut b: usize = n;
    while b > a && (s[b - 1] == 32 || s[b - 1] == 9 || s[b - 1] == 10 || s[b - 1] == 12 || s[b
        - 1] == 13)
        invariant
            n == s@.len(),
            a <= b <= n,
            forall|i: int| b <= i < n ==> is_ascii_blank(#[trigger] s@[i]),
        decreases b,
    {
        b -= 1;
    }
    let mut r: Vec<u8> = Vec::new();
    let mut k = a;
    while k < b
        invariant
            a <= k <= b <= n,
            n == s@.len(),
            r@ =~= s@.subrange(a as int, k as int),
        decreases b - k,
    {
        r.push(s[k]);
        k += 1;
    }
    proof {
        lemma_trim_front(s@, a as int);
        let t = s@.skip(a as int);
        assert forall|i: int| b - a <= i < t.len() implies is_ascii_blank(#[trigger] t[i]) by {
            assert(t[i] == s@[a + i]);
        }
        if t.len() > 0 && a == b {
            assert(is_ascii_blank(s@[a as int]));
        }
        lemma_trim_back(t, b - a);
        assert(t.take(b - a) =~= s@.subrange(a as int, b as int));
    }
    r
}

proof fn lemma_total_ge_first(ls: Seq<Seq<u8>>)
    requires
        ls.len() >= 1,
    ensures
        total_len(ls) >= ls[0].len() + ls.len(),
    decreases ls.len(),
{
    if ls.len() > 1 {
        lemma_total_ge_first(ls.drop_last());
        assert(ls.drop_last()[0] == ls[0]);
    } else {
        assert(ls.drop_last() =~= Seq::<Seq<u8>>::empty());
        assert(total_len(ls.drop_last()) == 0);
        assert(ls.last() == ls[0]);
    }
}

/// The range that the piece `p` spells.
fn read_range(p: &Vec<u8>) -> (r: Option<(u64, u64)>)
    ensures
        r == range_of(p@),
{
    let halves = split_lines(p.as_slice(), 45);
    if halves.len() < 2 {
        return None;
    }
    let ghost hs = lines_of(p@, 45);
    proof {
        lemma_total_len(p@, 45);
        lemma_total_ge_first(hs);
        assert(halves.deep_view()[0] =~= halves@[0]@);
    }
    let pl = p.len();
    let first = &halves[0];
    assert(first@ == hs[0]);
    assert(first@.len() + 1 <= pl);
    let cut = first.len() + 1;
    let rest = &p.as_slice()[cut..p.len()];
    assert(rest@ =~= p@.skip(cut as int));
    let lo = parse_u64(trim_bytes(first.as_slice()).as_slice());
    let hi = parse_u64(trim_bytes(rest).as_slice());
    match (lo, hi) {
        (Some(a), Some(b)) => Some((a, b)),
        _ => None,
    }
}

/// The ranges of IDs of the input, one per piece between commas.
fn parse_ranges(input: &String) -> (r: Result<Vec<(u64, u64)>, InputError>)
    ensures
        r is Ok <==> ranges_ok(*input),
        r matches Ok(v) ==> v@ == id_ranges(*input),
        r matches Err(e) ==> e == InputError::Malformed,
{
    let pieces = split_lines(input.as_str().as_bytes(), 44);
    let ghost ps = id_pieces(*input);
    let mut out: Vec<(u64, u64)> = Vec::new();
    let mut i: usize = 0;
    while i < pieces.len()
        invariant
            ps == id_pieces(*input),
            pieces.deep_view() == ps,
            i <= pieces@.len(),
            out@.len() == i,
            forall|k: int| 0 <= k < i ==> (#[trigger] range_of(ps[k])) is Some,
            forall|k: int| 0 <= k < i ==> #[trigger] out@[k] == id_ranges(*input)[k],
        decreases pieces@.len() - i,
    {
        assert(pieces.deep_view()[i as int] =~= pieces@[i as int]@);
        match read_range(&pieces[i]) {
            Some(rg) => out.push(rg),
            None => {
                return Err(InputError::Malformed);
            },
        }
        i += 1;
    }
    assert(out@ =~= id_ranges(*input));
    Ok(out)
}

proof fn lemma_doubled_sum_grows(lo: int, n: int, m: int)
    requires
        n <= m,
    ensures
        doubled_sum(lo, n) <= doubled_sum(lo, m),
    decreases m - n,
{
    if n < m {
        lemma_doubled_sum_grows(lo, n, m - 1);
    }
}

proof fn lemma_doubled_total_grows(rs: Seq<(u64, u64)>, k: int, m: int)
    requires
        0 <= k <= m,
    ensures
        doubled_total(rs, k) <= doubled_total(rs, m),
    decreases m - k,
{
    if k < m {
        lemma_doubled_total_grows(rs, k, m - 1);
    }
}

proof fn lemma_repeated_sum_grows(rs: Seq<(u64, u64)>, i: int, lo: int, n: int, m: int)
    requires
        n <= m,
    ensures
        repeated_sum(rs, i, lo, n) <= repeated_sum(rs, i, lo, m),
    decreases m - n,
{
    if n < m {
        lemma_repeated_sum_grows(rs, i, lo, n, m - 1);
    }
}

proof fn lemma_repeated_total_grows(rs: Seq<(u64, u64)>, k: int, m: int)
    requires
        0 <= k <= m,
    ensures
        repeated_total(rs, k) <= repeated_total(rs, m),
    decreases m - k,
{
    if k < m {
        lemma_repeated_total_grows(rs, k, m - 1);
    }
}

/// Sum of the IDs of the ranges whose digits are a block repeated twice; an ID in two
/// ranges counts twice.
pub fn part1(input: String) -> (r: Result<String, InputError>)
    ensures
        r is Ok <==> ranges_ok(input) && doubled_total(
            id_ranges(input),
            id_ranges(input).len() as int,
        ) <= u64::MAX,
        r matches Ok(s) ==> s@ == decimal(
            doubled_total(id_ranges(input), id_ranges(input).len() as int),
        ),
        r matches Err(e) ==> e == if ranges_ok(input) {
            InputError::TooLarge
        } else {
            InputError::Malformed
        },
{
    let rs = parse_ranges(&input)?;
    let ghost all = doubled_total(rs@, rs@.len() as int);
    let mut total: u64 = 0;
    let mut i: usize = 0;
    while i < rs.len()
        invariant
            rs@ == id_ranges(input),
            ranges_ok(input),
            all == doubled_total(rs@, rs@.len() as int),
            i <= rs@.len(),
            total == doubled_total(rs@, i as int),
        decreases rs@.len() - i,
    {
        let (lo, hi) = rs[i];
        proof {
            lemma_doubled_total_grows(rs@, i + 1, rs@.len() as int);
        }
        if lo <= hi {
            let mut x = lo;
            loop
                invariant_except_break
                    total == doubled_total(rs@, i as int) + doubled_sum(lo as int, x as int),
                invariant
                    rs@ == id_ranges(input),
                    ranges_ok(input),
                    all == doubled_total(rs@, rs@.len() as int),
                    i < rs@.len(),
                    (lo, hi) == rs@[i as int],
                    doubled_total(rs@, i + 1) <= all,
                    lo <= x <= hi,
                ensures
                    total == doubled_total(rs@, i as int) + doubled_sum(lo as int, hi + 1),
                decreases hi - x,
            {
                if doubled(x) {
                    if total > u64::MAX - x {
                        proof {
                            lemma_doubled_sum_grows(lo as int, x + 1, hi + 1);
                        }
                        return Err(InputError::TooLarge);
                    }
                    total = total + x;
                }
                if x == hi {
                    break;
                }
                x = x + 1;
            }
        }
        i += 1;
    }
    Ok(decimal_string(total))
}

/// Whether `x` lies in one of the first `i` ranges.
fn in_earlier_range(rs: &Vec<(u64, u64)>, i: usize, x: u64) -> (r: bool)
    requires
        i <= rs@.len(),
    ensures
        r == in_earlier(rs@, i as int, x as int),
{
    let mut j: usize = 0;
    while j < i
        invariant
            i <= rs@.len(),
            j <= i,
            forall|q: int| 0 <= q < j ==> !((#[trigger] rs@[q]).0 <= x <= rs@[q].1),
        decreases i - j,
    {
        if rs[j].0 <= x && x <= rs[j].1 {
            return true;
        }
        j += 1;
    }
    false
}

/// Sum of the IDs of the ranges, each counted once, whose digits are a block repeated at
/// least twice.
pub fn part2(input: String) -> (r: Result<String, InputError>)
    ensures
        r is Ok <==> ranges_ok(input) && repeated_total(
            id_ranges(input),
            id_ranges(input).len() as int,
        ) <= u64::MAX,
        r matches Ok(s) ==> s@ == decimal(
            repeated_total(id_ranges(input), id_ranges(input).len() as int),
        ),
        r matches Err(e) ==> e == if ranges_ok(input) {
            InputError::TooLarge
        } else {
            InputError::Malformed
        },
{
    let rs = parse_ranges(&input)?;
    let ghost all = repeated_total(rs@, rs@.len() as int);
    let mut total: u64 = 0;
    let mut i: usize = 0;
    while i < rs.len()
        invariant
            rs@ == id_ranges(input),
            ranges_ok(input),
            all == repeated_total(rs@, rs@.len() as int),
            i <= rs@.len(),
            total == repeated_total(rs@, i as int),
        decreases rs@.len() - i,
    {
        let (lo, hi) = rs[i];
        proof {
            lemma_repeated_total_grows(rs@, i + 1, rs@.len() as int);
        }
        if lo <= hi {
            let mut x = lo;
            loop
                invariant_except_break
                    total == repeated_total(rs@, i as int) + repeated_sum(
                        rs@,
                        i as int,
                        lo as int,
                        x as int,
                    ),
                invariant
                    rs@ == id_ranges(input),
                    ranges_ok(input),
                    all == repeated_total(rs@, rs@.len() as int),
                    i < rs@.len(),
                    (lo, hi) == rs@[i as int],
                    repeated_total(rs@, i + 1) <= all,
                    lo <= x <= hi,
                ensures
                    total == repeated_total(rs@, i as int) + repeated_sum(
                        rs@,
                        i as int,
                        lo as int,
                        hi + 1,
                    ),
                decreases hi - x,
            {
                if repeated(x) && !in_earlier_range(&rs, i, x) {
                    if total > u64::MAX - x {
                        proof {
                            lemma_repeated_sum_grows(rs@, i as int, lo as int, x + 1, hi + 1);
                        }
                        return Err(InputError::TooLarge);
                    }
                    total = total + x;
                }
                if x == hi {
                    break;
                }
                x = x + 1;
            }
        }
        i += 1;
    }
    Ok(decimal_string(total))
}

} // verus!
