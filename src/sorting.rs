use itertools::Itertools;
use vstd::prelude::*;
use vstd::relations::{sorted_by, total_ordering};

verus! {

pub open spec fn le_u64(x: u64, y: u64) -> bool {
    x <= y
}

/// Pairs ordered by their first element, then by their second.
pub open spec fn le_pair(x: (u64, u64), y: (u64, u64)) -> bool {
    x.0 < y.0 || (x.0 == y.0 && x.1 <= y.1)
}

/// `s` in ascending order.
pub open spec fn sorted_u64(s: Seq<u64>) -> Seq<u64> {
    s.sort_by(|x: u64, y: u64| le_u64(x, y))
}

/// `s` in ascending order of pairs.
pub open spec fn sorted_pairs(s: Seq<(u64, u64)>) -> Seq<(u64, u64)> {
    s.sort_by(|x: (u64, u64), y: (u64, u64)| le_pair(x, y))
}

pub proof fn lemma_le_u64_total()
    ensures
        total_ordering(|x: u64, y: u64| le_u64(x, y)),
{
}

pub proof fn lemma_le_pair_total()
    ensures
        total_ordering(|x: (u64, u64), y: (u64, u64)| le_pair(x, y)),
{
}

pub proof fn lemma_sorted_u64_at(s: Seq<u64>, i: int, j: int)
    requires
        sorted_by(s, |x: u64, y: u64| le_u64(x, y)),
        0 <= i < j < s.len(),
    ensures
        s[i] <= s[j],
{
    assert((|x: u64, y: u64| le_u64(x, y))(s[i], s[j]));
}

pub proof fn lemma_sorted_pairs_at(s: Seq<(u64, u64)>, i: int, j: int)
    requires
        sorted_by(s, |x: (u64, u64), y: (u64, u64)| le_pair(x, y)),
        0 <= i < j < s.len(),
    ensures
        le_pair(s[i], s[j]),
{
    assert((|x: (u64, u64), y: (u64, u64)| le_pair(x, y))(s[i], s[j]));
}

/// Relies on `slice::sort_unstable`: the same elements, in ascending order.
#[verifier::external_body]
fn sort_unstable_u64(v: &mut Vec<u64>)
    ensures
        final(v)@.to_multiset() == old(v)@.to_multiset(),
        sorted_by(final(v)@, |x: u64, y: u64| le_u64(x, y)),
{
    v.sort_unstable();
}

/// Relies on `Itertools::sorted_unstable`: the same pairs, in ascending order of
/// `(u64, u64)`'s `Ord`, first elements first.
#[verifier::external_body]
fn sorted_unstable_pairs(v: Vec<(u64, u64)>) -> (r: Vec<(u64, u64)>)
    ensures
        r@.to_multiset() == v@.to_multiset(),
        sorted_by(r@, |x: (u64, u64), y: (u64, u64)| le_pair(x, y)),
{
    v.into_iter().sorted_unstable().collect()
}

/// `v` in ascending order.
pub fn sort_values(v: Vec<u64>) -> (r: Vec<u64>)
    ensures
        r@ == sorted_u64(v@),
{
    let mut r = v;
    sort_unstable_u64(&mut r);
    proof {
        lemma_le_u64_total();
        v@.lemma_sort_by_ensures(|x: u64, y: u64| le_u64(x, y));
        vstd::seq_lib::lemma_sorted_unique(r@, sorted_u64(v@), |x: u64, y: u64| le_u64(x, y));
    }
    r
}

/// `v` in ascending order of pairs.
pub fn sort_pairs(v: Vec<(u64, u64)>) -> (r: Vec<(u64, u64)>)
    ensures
        r@ == sorted_pairs(v@),
{
    let r = sorted_unstable_pairs(v);
    proof {
        lemma_le_pair_total();
        v@.lemma_sort_by_ensures(|x: (u64, u64), y: (u64, u64)| le_pair(x, y));
        vstd::seq_lib::lemma_sorted_unique(
            r@,
            sorted_pairs(v@),
            |x: (u64, u64), y: (u64, u64)| le_pair(x, y),
        );
    }
    r
}

/// Consecutive elements of `s` taken two at a time; an element left over at the end is
/// dropped.
pub open spec fn pair_up(s: Seq<u64>) -> Seq<(u64, u64)> {
    Seq::new((s.len() / 2) as nat, |i: int| (s[2 * i], s[2 * i + 1]))
}

/// Relies on `Itertools::tuples` for pairs: consecutive elements two at a time, the last
/// one dropped when their number is odd.
#[verifier::external_body]
pub(crate) fn tuples(v: Vec<u64>) -> (r: Vec<(u64, u64)>)
    ensures
        r@ == pair_up(v@),
{
    v.into_iter().tuples().collect()
}

} // verus!
