use crate::parse::{parse_u64, u64_of};
use crate::solution::{decimal, decimal_string, InputError};
use crate::sorting::{le_pair, le_u64, pair_up, sort_pairs, sort_values, sorted_pairs, sorted_u64, tuples};
use crate::text::{contains_seq, find_bytes, lines, lines_of, occurs_at, split_lines, text_lines};
use vstd::multiset::Multiset;
use vstd::prelude::*;
use vstd::relations::sorted_by;
use vstd::set_lib::{lemma_int_range, lemma_len_subset, lemma_set_disjoint_lens, set_int_range};
use vstd::string::StringSliceAdditionalSpecFns;
use vstd::utf8::encode_utf8;

verus! {

/// The blank line between the ranges and the available ingredients.
pub open spec fn blank_line() -> Seq<u8> {
    seq![10u8, 10u8]
}

/// Index of the first blank line of the database.
pub open spec fn split_index(b: Seq<u8>) -> int {
    choose|i: int| occurs_at(b, blank_line(), i) && forall|j: int| 0 <= j < i ==> !occurs_at(b, blank_line(), j)
}

/// The bytes of the ranges' section, dashes turned into newlines.
pub open spec fn range_text(b: Seq<u8>) -> Seq<u8> {
    b.take(split_index(b)).map_values(|c: u8| if c == 45 { 10u8 } else { c })
}

/// The numbers of the ranges' section, one per piece between newlines and dashes.
pub open spec fn range_pieces(b: Seq<u8>) -> Seq<Seq<u8>> {
    lines_of(range_text(b), 10)
}

/// The lines of the available ingredients' section.
pub open spec fn value_lines(b: Seq<u8>) -> Seq<Seq<u8>> {
    text_lines(b.skip(split_index(b) + 2))
}

pub open spec fn all_numbers(ps: Seq<Seq<u8>>) -> bool {
    forall|i: int| 0 <= i < ps.len() ==> (#[trigger] u64_of(ps[i])) is Some
}

pub open spec fn numbers(ps: Seq<Seq<u8>>) -> Seq<u64> {
    ps.map_values(|p: Seq<u8>| u64_of(p)->0)
}

/// The database reads: a blank line, and a number in every piece of both sections.
pub open spec fn database_ok(b: Seq<u8>) -> bool {
    &&& contains_seq(b, blank_line())
    &&& all_numbers(range_pieces(b))
    &&& all_numbers(value_lines(b))
}

/// The fresh ranges of the database, their bounds taken two at a time.
pub open spec fn ranges_of(b: Seq<u8>) -> Seq<(u64, u64)> {
    pair_up(numbers(range_pieces(b)))
}

/// The available ingredient IDs of the database.
pub open spec fn values_of(b: Seq<u8>) -> Seq<u64> {
    numbers(value_lines(b))
}

/// `v` lies in one of the ranges, bounds included.
pub open spec fn is_fresh(v: u64, rs: Seq<(u64, u64)>) -> bool {
    exists|k: int| 0 <= k < rs.len() && (#[trigger] rs[k]).0 <= v <= rs[k].1
}

/// Number of the available ingredients, counted with repetition, that are fresh.
pub open spec fn fresh_count(b: Seq<u8>) -> nat {
    values_of(b).to_multiset().filter(|v: u64| is_fresh(v, ranges_of(b))).len()
}

/// The pieces of `ps` read as numbers, or `None` where one does not read.
fn read_numbers(ps: &Vec<Vec<u8>>) -> (r: Option<Vec<u64>>)
    ensures
        r is Some <==> all_numbers(ps.deep_view()),
        r matches Some(v) ==> v@ == numbers(ps.deep_view()),
{
    let ghost model = ps.deep_view();
    let mut out: Vec<u64> = Vec::new();
    let mut i: usize = 0;
    while i < ps.len()
        invariant
            model == ps.deep_view(),
            i <= ps@.len(),
            out@.len() == i,
            forall|k: int| 0 <= k < i ==> (#[trigger] u64_of(model[k])) is Some,
            forall|k: int| 0 <= k < i ==> #[trigger] out@[k] == numbers(model)[k],
        decreases ps@.len() - i,
    {
        assert(ps.deep_view()[i as int] =~= ps@[i as int]@);
        match parse_u64(ps[i].as_slice()) {
            Some(v) => out.push(v),
            None => {
                assert(u64_of(model[i as int]) is None);
                return None;
            },
        }
        i += 1;
    }
    assert(out@ =~= numbers(model));
    Some(out)
}

/// The fresh ranges and the available ingredient IDs of the database.
fn parse(b: &[u8]) -> (r: Result<(Vec<(u64, u64)>, Vec<u64>), InputError>)
    ensures
        r is Ok <==> database_ok(b@),
        r matches Ok(p) ==> p.0@ == ranges_of(b@) && p.1@ == values_of(b@),
        r matches Err(e) ==> e == InputError::Malformed,
{
    let blank: [u8; 2] = [10, 10];
    assert(blank@ =~= blank_line());
    let at = match find_bytes(b, blank.as_slice()) {
        Some(i) => i,
        None => {
            return Err(InputError::Malformed);
        },
    };
    assert(at == split_index(b@));
    let mut head: Vec<u8> = Vec::new();
    let mut i: usize = 0;
    while i < at
        invariant
            at + 2 <= b@.len(),
            i <= at,
            head@ == b@.take(at as int).take(i as int).map_values(
                |c: u8| if c == 45 { 10u8 } else { c },
            ),
        decreases at - i,
    {
        let c = b[i];
        head.push(if c == 45 { 10 } else { c });
        i += 1;
        assert(head@ =~= b@.take(at as int).take(i as int).map_values(
            |c: u8| if c == 45 { 10u8 } else { c },
        ));
    }
    assert(b@.take(at as int).take(at as int) =~= b@.take(at as int));
    let pieces = split_lines(head.as_slice(), 10);
    let n = b.len();
    assert(at + 2 <= n);
    let tail = &b[at + 2..n];
    assert(tail@ =~= b@.skip(at + 2));
    let vlines = lines(tail);
    assert(vlines.deep_view() =~= value_lines(b@)) by {
        assert forall|k: int| 0 <= k < vlines@.len() implies vlines.deep_view()[k] == value_lines(b@)[k] by {
            assert(vlines.deep_view()[k] =~= vlines@[k]@);
        }
    }
    let bounds = match read_numbers(&pieces) {
        Some(v) => v,
        None => {
            return Err(InputError::Malformed);
        },
    };
    let values = match read_numbers(&vlines) {
        Some(v) => v,
        None => {
            return Err(InputError::Malformed);
        },
    };
    Ok((tuples(bounds), values))
}

proof fn lemma_filter_insert_len(m: Multiset<u64>, f: spec_fn(u64) -> bool, v: u64)
    ensures
        m.insert(v).filter(f).len() == m.filter(f).len() + if f(v) {
            1nat
        } else {
            0nat
        },
{
    broadcast use vstd::multiset::group_multiset_axioms, vstd::seq_lib::group_to_multiset_ensures;

    if f(v) {
        assert(m.insert(v).filter(f) =~= m.filter(f).insert(v));
    } else {
        assert(m.insert(v).filter(f) =~= m.filter(f));
    }
}

proof fn lemma_fresh_perm(v: u64, a: Seq<(u64, u64)>, b: Seq<(u64, u64)>)
    requires
        a.to_multiset() == b.to_multiset(),
    ensures
        is_fresh(v, a) == is_fresh(v, b),
{
    broadcast use vstd::multiset::group_multiset_axioms, vstd::seq_lib::group_to_multiset_ensures;

    if is_fresh(v, a) {
        let k = choose|k: int| 0 <= k < a.len() && (#[trigger] a[k]).0 <= v <= a[k].1;
        assert(a.contains(a[k]));
        assert(a.to_multiset().count(a[k]) > 0);
        assert(b.contains(a[k]));
        let j = choose|j: int| 0 <= j < b.len() && b[j] == a[k];
        assert(b[j].0 <= v <= b[j].1);
    }
    if is_fresh(v, b) {
        let k = choose|k: int| 0 <= k < b.len() && (#[trigger] b[k]).0 <= v <= b[k].1;
        assert(b.contains(b[k]));
        assert(b.to_multiset().count(b[k]) > 0);
        assert(a.contains(b[k]));
        let j = choose|j: int| 0 <= j < a.len() && a[j] == b[k];
        assert(a[j].0 <= v <= a[j].1);
    }
}

/// Number of available ingredient IDs that fall in a fresh range.
pub fn part1(input: String) -> (r: Result<String, InputError>)
    ensures
        ({
            let b = encode_utf8(input@);
            &&& r is Ok <==> database_ok(b)
            &&& r matches Ok(s) ==> s@ == decimal(fresh_count(b))
            &&& r matches Err(e) ==> e == InputError::Malformed
        }),
{
    let ghost b = encode_utf8(input@);
    let (ranges, values) = parse(input.as_str().as_bytes())?;
    let rs = sort_pairs(ranges);
    let vs = sort_values(values);
    let ghost f = |x: u64| is_fresh(x, ranges_of(b));
    proof {
        broadcast use vstd::multiset::group_multiset_axioms, vstd::seq_lib::group_to_multiset_ensures;

        crate::sorting::lemma_le_pair_total();
        crate::sorting::lemma_le_u64_total();
        ranges@.lemma_sort_by_ensures(|x: (u64, u64), y: (u64, u64)| le_pair(x, y));
        values@.lemma_sort_by_ensures(|x: u64, y: u64| le_u64(x, y));
        assert(vs@.take(0) =~= Seq::<u64>::empty());
        assert(vs@.take(0).to_multiset().filter(f) =~= Multiset::empty());
    }
    let ghost rsv = rs@;
    let ghost vsv = vs@;
    let mut count: usize = 0;
    let mut cur: usize = 0;
    let mut i: usize = 0;
    while i < vs.len()
        invariant
            rs@ == rsv,
            vs@ == vsv,
            sorted_by(rsv, |x: (u64, u64), y: (u64, u64)| le_pair(x, y)),
            sorted_by(vsv, |x: u64, y: u64| le_u64(x, y)),
            rsv.to_multiset() == ranges_of(b).to_multiset(),
            f == (|x: u64| is_fresh(x, ranges_of(b))),
            i <= vsv.len(),
            cur <= rsv.len(),
            forall|k: int, j: int| #![trigger rsv[k], vsv[j]] 0 <= k < cur && i <= j < vsv.len() ==> rsv[k].1 < vsv[j],
            count == vsv.take(i as int).to_multiset().filter(f).len(),
            count <= i,
        decreases vsv.len() - i,
    {
        let v = vs[i];
        let mut fresh = false;
        while cur < rs.len()
            invariant_except_break
                !fresh,
            invariant
                rs@ == rsv,
                vs@ == vsv,
                i < vsv.len(),
                v == vsv[i as int],
                sorted_by(vsv, |x: u64, y: u64| le_u64(x, y)),
                cur <= rsv.len(),
                forall|k: int, j: int|
                    #![trigger rsv[k], vsv[j]]
                    0 <= k < cur && i <= j < vsv.len() ==> rsv[k].1 < vsv[j],
            ensures
                cur <= rsv.len(),
                forall|k: int, j: int|
                    #![trigger rsv[k], vsv[j]]
                    0 <= k < cur && i <= j < vsv.len() ==> rsv[k].1 < vsv[j],
                fresh ==> cur < rsv.len() && rsv[cur as int].0 <= v <= rsv[cur as int].1,
                !fresh ==> cur == rsv.len() || v < rsv[cur as int].0,
            decreases rsv.len() - cur,
        {
            let (lo, hi) = rs[cur];
            if v < lo {
                break;
            }
            if v <= hi {
                fresh = true;
                break;
            }
            assert forall|k: int, j: int|
                #![trigger rsv[k], vsv[j]]
                0 <= k < cur + 1 && i <= j < vsv.len() implies rsv[k].1 < vsv[j] by {
                if k == cur && j > i {
                    crate::sorting::lemma_sorted_u64_at(vsv, i as int, j);
                }
            }
            cur += 1;
        }
        proof {
            if fresh {
                assert(is_fresh(v, rsv));
            } else {
                assert forall|k: int| 0 <= k < rsv.len() implies !((#[trigger] rsv[k]).0 <= v
                    <= rsv[k].1) by {
                    if k >= cur && cur < rsv.len() {
                        if k > cur {
                            crate::sorting::lemma_sorted_pairs_at(rsv, cur as int, k);
                        }
                    }
                }
                assert(!is_fresh(v, rsv));
            }
            broadcast use vstd::seq_lib::group_to_multiset_ensures;

            lemma_fresh_perm(v, rsv, ranges_of(b));
            assert(vsv.take(i + 1) =~= vsv.take(i as int).push(v));
            lemma_filter_insert_len(vsv.take(i as int).to_multiset(), f, v);
        }
        if fresh {
            count += 1;
        }
        i += 1;
    }
    proof {
        assert(vsv.take(vsv.len() as int) =~= vsv);
    }
    Ok(decimal_string(count as u64))
}

/// Every range has its lower bound at most its upper bound.
pub open spec fn ranges_ordered(rs: Seq<(u64, u64)>) -> bool {
    forall|k: int| 0 <= k < rs.len() ==> (#[trigger] rs[k]).0 <= rs[k].1
}

/// The IDs that some range holds.
pub open spec fn covered(rs: Seq<(u64, u64)>) -> Set<int> {
    Set::new(|x: int| exists|k: int| 0 <= k < rs.len() && (#[trigger] rs[k]).0 <= x <= rs[k].1)
}

proof fn lemma_covered_perm(a: Seq<(u64, u64)>, b: Seq<(u64, u64)>)
    requires
        a.to_multiset() == b.to_multiset(),
    ensures
        covered(a) == covered(b),
{
    broadcast use vstd::multiset::group_multiset_axioms, vstd::seq_lib::group_to_multiset_ensures;

    assert forall|x: int| covered(a).contains(x) <==> covered(b).contains(x) by {
        if covered(a).contains(x) {
            let k = choose|k: int| 0 <= k < a.len() && (#[trigger] a[k]).0 <= x <= a[k].1;
            assert(a.to_multiset().count(a[k]) > 0);
            assert(b.contains(a[k]));
            let j = choose|j: int| 0 <= j < b.len() && b[j] == a[k];
            assert(b[j].0 <= x <= b[j].1);
        }
        if covered(b).contains(x) {
            let k = choose|k: int| 0 <= k < b.len() && (#[trigger] b[k]).0 <= x <= b[k].1;
            assert(b.to_multiset().count(b[k]) > 0);
            assert(a.contains(b[k]));
            let j = choose|j: int| 0 <= j < a.len() && a[j] == b[k];
            assert(a[j].0 <= x <= a[j].1);
        }
    }
    assert(covered(a) =~= covered(b));
}

proof fn lemma_covered_push(rs: Seq<(u64, u64)>, i: int)
    requires
        0 <= i < rs.len(),
    ensures
        covered(rs.take(i + 1)) == covered(rs.take(i)) + set_int_range(
            rs[i].0 as int,
            rs[i].1 + 1,
        ),
{
    let p = rs.take(i);
    let q = rs.take(i + 1);
    assert forall|x: int| covered(q).contains(x) <==> (covered(p) + set_int_range(
        rs[i].0 as int,
        rs[i].1 + 1,
    )).contains(x) by {
        if covered(q).contains(x) {
            let k = choose|k: int| 0 <= k < q.len() && (#[trigger] q[k]).0 <= x <= q[k].1;
            if k < i {
                assert(p[k] == q[k]);
            }
        }
        if covered(p).contains(x) {
            let k = choose|k: int| 0 <= k < p.len() && (#[trigger] p[k]).0 <= x <= p[k].1;
            assert(q[k] == p[k]);
        }
        if rs[i].0 <= x <= rs[i].1 {
            assert(q[i] == rs[i]);
        }
    }
    assert(covered(q) =~= covered(p) + set_int_range(rs[i].0 as int, rs[i].1 + 1));
}

/// Size of the union of the ranges `rs`, sorted and each with its lower bound first.
fn union_size(rs: &Vec<(u64, u64)>) -> (n: u128)
    requires
        rs@.len() > 0,
        sorted_by(rs@, |x: (u64, u64), y: (u64, u64)| le_pair(x, y)),
        ranges_ordered(rs@),
    ensures
        covered(rs@).finite(),
        n == covered(rs@).len(),
{
    let ghost rsv = rs@;
    proof {
        lemma_covered_push(rsv, 0);
        assert(covered(rsv.take(0)) =~= Set::empty());
        assert(Set::<int>::empty() + set_int_range(rsv[0].0 as int, rsv[0].1 + 1) =~= set_int_range(
            rsv[0].0 as int,
            rsv[0].1 + 1,
        ));
    }
    let (mut lo, mut hi) = rs[0];
    assert forall|j: int| 1 <= j < rsv.len() implies (#[trigger] rsv[j]).0 >= lo by {
        crate::sorting::lemma_sorted_pairs_at(rsv, 0, j);
    }
    let mut total: u128 = 0;
    let ghost mut below: Set<int> = Set::empty();
    let mut i: usize = 1;
    while i < rs.len()
        invariant
            rs@ == rsv,
            sorted_by(rsv, |x: (u64, u64), y: (u64, u64)| le_pair(x, y)),
            ranges_ordered(rsv),
            1 <= i <= rsv.len(),
            lo <= hi,
            forall|j: int| i <= j < rsv.len() ==> (#[trigger] rsv[j]).0 >= lo,
            below.finite(),
            below.len() == total,
            forall|x: int| below.contains(x) ==> 0 <= x < lo,
            covered(rsv.take(i as int)) == below + set_int_range(lo as int, hi + 1),
        decreases rsv.len() - i,
    {
        let (a, c) = rs[i];
        proof {
            lemma_covered_push(rsv, i as int);
            lemma_int_range(lo as int, hi + 1);
            lemma_int_range(0, lo as int);
            assert(below.subset_of(set_int_range(0, lo as int)));
            lemma_len_subset(below, set_int_range(0, lo as int));
            assert(rsv[i as int].0 <= rsv[i as int].1);
        }
        if a > hi {
            let ghost block = set_int_range(lo as int, hi + 1);
            proof {
                lemma_set_disjoint_lens(below, block);
                assert(below.disjoint(block));
                below = below + block;
                assert(covered(rsv.take(i + 1)) =~= below + set_int_range(a as int, c + 1));
                assert forall|j: int| i + 1 <= j < rsv.len() implies (#[trigger] rsv[j]).0 >= a by {
                    crate::sorting::lemma_sorted_pairs_at(rsv, i as int, j);
                }
                assert forall|x: int| below.contains(x) implies 0 <= x < a by {}
            }
            total = total + (hi - lo) as u128 + 1;
            lo = a;
            hi = c;
        } else {
            proof {
                assert(set_int_range(lo as int, hi + 1) + set_int_range(a as int, c + 1)
                    =~= set_int_range(lo as int, if c > hi { c + 1 } else { hi + 1 }));
                assert(covered(rsv.take(i + 1)) =~= below + set_int_range(
                    lo as int,
                    if c > hi {
                        c + 1
                    } else {
                        hi + 1
                    },
                ));
            }
            if c > hi {
                hi = c;
            }
        }
        i += 1;
    }
    let ghost last = set_int_range(lo as int, hi + 1);
    proof {
        lemma_int_range(lo as int, hi + 1);
        lemma_set_disjoint_lens(below, last);
        assert(below.disjoint(last));
        lemma_int_range(0, lo as int);
        assert(below.subset_of(set_int_range(0, lo as int)));
        lemma_len_subset(below, set_int_range(0, lo as int));
        assert(rsv.take(rsv.len() as int) =~= rsv);
    }
    total + (hi - lo) as u128 + 1
}

proof fn lemma_sorted_ranges(ranges: Seq<(u64, u64)>, rs: Seq<(u64, u64)>)
    requires
        rs == sorted_pairs(ranges),
        ranges_ordered(ranges),
    ensures
        sorted_by(rs, |x: (u64, u64), y: (u64, u64)| le_pair(x, y)),
        ranges_ordered(rs),
        covered(rs) == covered(ranges),
        rs.len() == ranges.len(),
{
    broadcast use vstd::multiset::group_multiset_axioms, vstd::seq_lib::group_to_multiset_ensures;

    crate::sorting::lemma_le_pair_total();
    ranges.lemma_sort_by_ensures(|x: (u64, u64), y: (u64, u64)| le_pair(x, y));
    lemma_covered_perm(rs, ranges);
    vstd::seq_lib::to_multiset_len(rs);
    vstd::seq_lib::to_multiset_len(ranges);
    assert forall|j: int| 0 <= j < rs.len() implies (#[trigger] rs[j]).0 <= rs[j].1 by {
        assert(rs.contains(rs[j]));
        assert(rs.to_multiset().count(rs[j]) > 0);
        assert(ranges.contains(rs[j]));
    }
}

/// Whether every range has its lower bound at most its upper bound.
fn all_ordered(rs: &Vec<(u64, u64)>) -> (r: bool)
    ensures
        r == ranges_ordered(rs@),
{
    let mut k: usize = 0;
    while k < rs.len()
        invariant
            k <= rs@.len(),
            forall|j: int| 0 <= j < k ==> (#[trigger] rs@[j]).0 <= rs@[j].1,
        decreases rs@.len() - k,
    {
        if rs[k].0 > rs[k].1 {
            return false;
        }
        k += 1;
    }
    true
}

/// Number of IDs that the fresh ranges hold, each counted once.
pub fn part2(input: String) -> (r: Result<String, InputError>)
    ensures
        ({
            let b = encode_utf8(input@);
            let rs = ranges_of(b);
            let ok = database_ok(b) && rs.len() > 0 && ranges_ordered(rs);
            &&& r is Ok <==> ok && covered(rs).len() <= u64::MAX
            &&& ok ==> covered(rs).finite()
            &&& r matches Ok(s) ==> s@ == decimal(covered(rs).len())
            &&& r matches Err(e) ==> e == if ok {
                InputError::TooLarge
            } else {
                InputError::Malformed
            }
        }),
{
    let (ranges, _) = parse(input.as_str().as_bytes())?;
    if ranges.len() == 0 || !all_ordered(&ranges) {
        return Err(InputError::Malformed);
    }
    let rs = sort_pairs(ranges);
    proof {
        lemma_sorted_ranges(ranges@, rs@);
    }
    let total = union_size(&rs);
    if total > u64::MAX as u128 {
        return Err(InputError::TooLarge);
    }
    Ok(decimal_string(total as u64))
}

} // verus!
