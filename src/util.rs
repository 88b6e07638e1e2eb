use std::collections::HashMap;
use vstd::prelude::*;

verus! {

broadcast use vstd::std_specs::hash::group_hash_axioms;

/// Number of elements of `s` equal to `k`.
pub open spec fn occurrences(s: Seq<u64>, k: u64) -> nat
    decreases s.len(),
{
    if s.len() == 0 {
        0
    } else {
        occurrences(s.drop_last(), k) + if s.last() == k {
            1nat
        } else {
            0nat
        }
    }
}

pub proof fn lemma_occurrences_pos(s: Seq<u64>, k: u64)
    ensures
        occurrences(s, k) > 0 <==> s.contains(k),
    decreases s.len(),
{
    if s.len() > 0 {
        lemma_occurrences_pos(s.drop_last(), k);
        if s.drop_last().contains(k) {
            let i = choose|i: int| 0 <= i < s.drop_last().len() && s.drop_last()[i] == k;
            assert(s[i] == k);
        }
        if s.contains(k) && s.last() != k {
            let i = choose|i: int| 0 <= i < s.len() && s[i] == k;
            assert(s.drop_last()[i] == k);
        }
    }
}

proof fn lemma_occurrences_le(s: Seq<u64>, k: u64)
    ensures
        occurrences(s, k) <= s.len(),
    decreases s.len(),
{
    if s.len() > 0 {
        lemma_occurrences_le(s.drop_last(), k);
    }
}

/// How many times each value occurs in `items`: exactly the values present are keys.
pub fn counts(items: &[u64]) -> (m: HashMap<u64, usize>)
    ensures
        forall|k: u64| #[trigger] m@.contains_key(k) <==> items@.contains(k),
        forall|k: u64| #[trigger] m@.contains_key(k) ==> m@[k] == occurrences(items@, k),
{
    let mut m: HashMap<u64, usize> = HashMap::new();
    let mut i: usize = 0;
    while i < items.len()
        invariant
            i <= items@.len(),
            forall|k: u64| #[trigger] m@.contains_key(k) <==> items@.take(i as int).contains(k),
            forall|k: u64|
                #[trigger] m@.contains_key(k) ==> m@[k] == occurrences(items@.take(i as int), k),
        decreases items@.len() - i,
    {
        let ghost pre = items@.take(i as int);
        let ghost post = items@.take(i + 1);
        let k = items[i];
        proof {
            assert(post.drop_last() =~= pre);
            lemma_occurrences_le(pre, k);
            lemma_occurrences_pos(pre, k);
            assert forall|x: u64| post.contains(x) <==> pre.contains(x) || x == k by {
                if pre.contains(x) {
                    let j = choose|j: int| 0 <= j < pre.len() && pre[j] == x;
                    assert(post[j] == x);
                }
                if x == k {
                    assert(post[i as int] == k);
                }
                if post.contains(x) && x != k {
                    let j = choose|j: int| 0 <= j < post.len() && post[j] == x;
                    assert(pre[j] == x);
                }
            }
        }
        let n: usize = match m.get(&k) {
            Some(c) => *c,
            None => 0,
        };
        m.insert(k, n + 1);
        i += 1;
    }
    assert(items@.take(items@.len() as int) =~= items@);
    m
}

} // verus!
