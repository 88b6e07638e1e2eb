use crate::parse::{kept_u64, pieces_of, uints};
use crate::solution::{decimal, decimal_string, InputError};
use crate::sorting::{pair_up, sort_values, sorted_u64, tuples};
use crate::util::{counts, lemma_occurrences_pos, occurrences};
use vstd::prelude::*;
use vstd::utf8::encode_utf8;

verus! {

broadcast use vstd::std_specs::hash::group_hash_axioms;

/// The numbers of the input taken two at a time: one from each list.
pub open spec fn number_pairs(input: String) -> Seq<(u64, u64)> {
    pair_up(kept_u64(pieces_of(encode_utf8(input@), false)))
}

pub open spec fn left_list(input: String) -> Seq<u64> {
    number_pairs(input).map_values(|p: (u64, u64)| p.0)
}

pub open spec fn right_list(input: String) -> Seq<u64> {
    number_pairs(input).map_values(|p: (u64, u64)| p.1)
}

pub open spec fn abs_diff(x: u64, y: u64) -> nat {
    if x >= y {
        (x - y) as nat
    } else {
        (y - x) as nat
    }
}

/// Sum of the distances between the elements of `a` and `b` at the same index, over the
/// first `n` indices.
pub open spec fn distance(a: Seq<u64>, b: Seq<u64>, n: int) -> nat
    decreases n,
{
    if n <= 0 {
        0
    } else {
        distance(a, b, n - 1) + abs_diff(a[n - 1], b[n - 1])
    }
}

/// Sum over the first `n` elements of `a` of each times the number of its occurrences in
/// `b`.
pub open spec fn similarity(a: Seq<u64>, b: Seq<u64>, n: int) -> nat
    decreases n,
{
    if n <= 0 {
        0
    } else {
        similarity(a, b, n - 1) + (a[n - 1] as nat) * occurrences(b, a[n - 1])
    }
}

proof fn lemma_distance_grows(a: Seq<u64>, b: Seq<u64>, i: int, n: int)
    requires
        0 <= i <= n,
    ensures
        distance(a, b, i) <= distance(a, b, n),
    decreases n - i,
{
    if i < n {
        lemma_distance_grows(a, b, i, n - 1);
    }
}

proof fn lemma_similarity_grows(a: Seq<u64>, b: Seq<u64>, i: int, n: int)
    requires
        0 <= i <= n,
    ensures
        similarity(a, b, i) <= similarity(a, b, n),
    decreases n - i,
{
    if i < n {
        lemma_similarity_grows(a, b, i, n - 1);
    }
}

/// The two lists of the input, in the order given.
fn read_lists(input: &String) -> (r: (Vec<u64>, Vec<u64>))
    ensures
        r.0@ == left_list(*input),
        r.1@ == right_list(*input),
{
    let nums = uints(input.as_str());
    let ps = tuples(nums);
    let mut left: Vec<u64> = Vec::new();
    let mut right: Vec<u64> = Vec::new();
    let mut i: usize = 0;
    while i < ps.len()
        invariant
            ps@ == number_pairs(*input),
            i <= ps@.len(),
            left@ =~= ps@.take(i as int).map_values(|p: (u64, u64)| p.0),
            right@ =~= ps@.take(i as int).map_values(|p: (u64, u64)| p.1),
        decreases ps@.len() - i,
    {
        left.push(ps[i].0);
        right.push(ps[i].1);
        i += 1;
    }
    assert(ps@.take(ps@.len() as int) =~= ps@);
    (left, right)
}

/// Total distance between the two lists, each sorted, paired smallest with smallest.
pub fn part1(input: String) -> (r: Result<String, InputError>)
    ensures
        ({
            let a = sorted_u64(left_list(input));
            let b = sorted_u64(right_list(input));
            let d = distance(a, b, a.len() as int);
            &&& r is Ok <==> d <= u64::MAX
            &&& r matches Ok(s) ==> s@ == decimal(d)
            &&& r matches Err(e) ==> e == InputError::TooLarge
        }),
{
    let (left, right) = read_lists(&input);
    let a = sort_values(left);
    let b = sort_values(right);
    proof {
        left_list(input).lemma_sort_by_ensures(|x: u64, y: u64| crate::sorting::le_u64(x, y));
        right_list(input).lemma_sort_by_ensures(|x: u64, y: u64| crate::sorting::le_u64(x, y));
        vstd::seq_lib::to_multiset_len(a@);
        vstd::seq_lib::to_multiset_len(b@);
        vstd::seq_lib::to_multiset_len(left_list(input));
        vstd::seq_lib::to_multiset_len(right_list(input));
    }
    let mut sum: u64 = 0;
    let mut i: usize = 0;
    while i < a.len()
        invariant
            a@ == sorted_u64(left_list(input)),
            b@ == sorted_u64(right_list(input)),
            a@.len() == b@.len(),
            i <= a@.len(),
            sum == distance(a@, b@, i as int),
        decreases a@.len() - i,
    {
        let (x, y) = (a[i], b[i]);
        let d = if x >= y {
            x - y
        } else {
            y - x
        };
        if sum > u64::MAX - d {
            proof {
                lemma_distance_grows(a@, b@, i + 1, a@.len() as int);
            }
            return Err(InputError::TooLarge);
        }
        sum = sum + d;
        i += 1;
    }
    Ok(decimal_string(sum))
}

/// Sum over the left list of each number times the number of its occurrences in the right.
pub fn part2(input: String) -> (r: Result<String, InputError>)
    ensures
        ({
            let a = left_list(input);
            let s = similarity(a, right_list(input), a.len() as int);
            &&& r is Ok <==> s <= u64::MAX
            &&& r matches Ok(t) ==> t@ == decimal(s)
            &&& r matches Err(e) ==> e == InputError::TooLarge
        }),
{
    let (left, right) = read_lists(&input);
    let m = counts(right.as_slice());
    let mut sum: u64 = 0;
    let mut i: usize = 0;
    while i < left.len()
        invariant
            left@ == left_list(input),
            right@ == right_list(input),
            forall|k: u64| #[trigger] m@.contains_key(k) <==> right@.contains(k),
            forall|k: u64| #[trigger] m@.contains_key(k) ==> m@[k] == occurrences(right@, k),
            i <= left@.len(),
            sum == similarity(left@, right@, i as int),
        decreases left@.len() - i,
    {
        let a = left[i];
        let term: u64 = match m.get(&a) {
            Some(c) => {
                match a.checked_mul(*c as u64) {
                    Some(t) => t,
                    None => {
                        proof {
                            lemma_similarity_grows(left@, right@, i + 1, left@.len() as int);
                        }
                        return Err(InputError::TooLarge);
                    },
                }
            },
            None => {
                proof {
                    lemma_occurrences_pos(right@, a);
                    assert(!m@.contains_key(a));
                    assert(!right@.contains(a));
                    assert(occurrences(right@, a) == 0);
                    assert((a as nat) * 0 == 0);
                }
                0
            },
        };
        assert(term == (a as nat) * occurrences(right@, a));
        assert(similarity(left@, right@, i + 1) == similarity(left@, right@, i as int) + (a as nat)
            * occurrences(right@, a));
        if sum > u64::MAX - term {
            proof {
                lemma_similarity_grows(left@, right@, i + 1, left@.len() as int);
            }
            return Err(InputError::TooLarge);
        }
        sum = sum + term;
        i += 1;
    }
    Ok(decimal_string(sum))
}

} // verus!
