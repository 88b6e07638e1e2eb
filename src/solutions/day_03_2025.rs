use crate::parse::{all_digits, digits_value, is_digit};
use crate::solution::{decimal, decimal_string, InputError};
use crate::text::{lines, text_lines};
use vstd::prelude::*;
use vstd::string::StringSliceAdditionalSpecFns;
use vstd::utf8::encode_utf8;

verus! {

/// Index of the first largest byte of `t`.
pub open spec fn first_max_index(t: Seq<u8>) -> int
    decreases t.len(),
{
    if t.len() <= 1 {
        0
    } else {
        let j = first_max_index(t.drop_last());
        if t.last() > t[j] {
            t.len() - 1
        } else {
            j
        }
    }
}

proof fn lemma_first_max(t: Seq<u8>)
    requires
        t.len() >= 1,
    ensures
        0 <= first_max_index(t) < t.len(),
        forall|j: int| 0 <= j < t.len() ==> #[trigger] t[j] <= t[first_max_index(t)],
        forall|j: int| 0 <= j < first_max_index(t) ==> #[trigger] t[j] < t[first_max_index(t)],
    decreases t.len(),
{
    if t.len() > 1 {
        let p = t.drop_last();
        lemma_first_max(p);
        assert forall|q: int| 0 <= q < t.len() implies #[trigger] t[q] <= t[first_max_index(t)] by {
            if q < t.len() - 1 {
                assert(t[q] == p[q]);
            }
        }
        assert forall|q: int| 0 <= q < first_max_index(t) implies #[trigger] t[q] < t[first_max_index(
            t,
        )] by {
            if q < t.len() - 1 {
                assert(t[q] == p[q]);
            }
        }
    }
}

/// The `k` digits that a bank of batteries `s` turns on from index `lo`: for each place in
/// turn, the first largest digit that leaves enough digits after it for the places left.
pub open spec fn pick(s: Seq<u8>, lo: int, k: nat) -> Seq<u8>
    decreases k,
{
    if k == 0 {
        Seq::empty()
    } else {
        let i = lo + first_max_index(s.subrange(lo, s.len() - (k - 1)));
        seq![s[i]] + pick(s, i + 1, (k - 1) as nat)
    }
}

pub open spec fn pow10(n: nat) -> nat
    decreases n,
{
    if n == 0 {
        1
    } else {
        10 * pow10((n - 1) as nat)
    }
}

proof fn lemma_pow10_mono(i: nat, j: nat)
    requires
        i <= j,
    ensures
        pow10(i) <= pow10(j),
    decreases j,
{
    if i < j {
        lemma_pow10_mono(i, (j - 1) as nat);
    }
}

/// The first largest byte of `s` and its index.
fn first_max(s: &[u8]) -> (r: (usize, u8))
    requires
        s@.len() >= 1,
    ensures
        r.0 == first_max_index(s@),
        r.1 == s@[r.0 as int],
{
    let mut best: usize = 0;
    let mut i: usize = 1;
    while i < s.len()
        invariant
            1 <= i <= s@.len(),
            best == first_max_index(s@.take(i as int)),
            0 <= best < i,
        decreases s@.len() - i,
    {
        proof {
            assert(s@.take(i + 1).drop_last() =~= s@.take(i as int));
            lemma_first_max(s@.take(i as int));
        }
        if s[i] > s[best] {
            best = i;
        }
        i += 1;
    }
    assert(s@.take(s@.len() as int) =~= s@);
    (best, s[best])
}

/// The largest number that `size` of the digits `s` spell in their order, found greedily.
pub fn max_combination(s: &[u8], size: usize) -> (v: u64)
    requires
        all_digits(s@),
        size <= s@.len(),
        size <= 19,
    ensures
        v == digits_value(pick(s@, 0, size as nat)),
{
    let mut value: u64 = 0;
    let mut left: usize = 0;
    let mut remaining: usize = size;
    let ghost mut chosen: Seq<u8> = Seq::empty();
    proof {
        reveal_with_fuel(pow10, 20);
        assert(pow10(19) == 10_000_000_000_000_000_000nat);
    }
    while remaining > 0
        invariant
            all_digits(s@),
            remaining <= size <= 19,
            left + remaining <= s@.len(),
            value == digits_value(chosen),
            value < pow10((size - remaining) as nat),
            pow10(19) == 10_000_000_000_000_000_000nat,
            chosen + pick(s@, left as int, remaining as nat) == pick(s@, 0, size as nat),
        decreases remaining,
    {
        let right = s.len() - (remaining - 1);
        let window = &s[left..right];
        let ghost t = s@.subrange(left as int, right as int);
        assert(window@ =~= t);
        let (mi, mb) = first_max(window);
        proof {
            lemma_first_max(t);
            assert(is_digit(s@[left + mi]));
            lemma_pow10_mono((size - remaining) as nat, 18);
            assert(chosen.push(mb) + pick(s@, left + mi + 1, (remaining - 1) as nat) =~= chosen
                + pick(s@, left as int, remaining as nat));
            assert(chosen.push(mb).drop_last() =~= chosen);
        }
        value = value * 10 + (mb - 48) as u64;
        proof {
            chosen = chosen.push(mb);
        }
        left = left + mi + 1;
        remaining = remaining - 1;
    }
    assert(chosen + pick(s@, left as int, 0) =~= chosen);
    value
}

/// A bank is a line of at least `k` digits.
pub open spec fn bank_ok(line: Seq<u8>, k: nat) -> bool {
    all_digits(line) && line.len() >= k
}

pub open spec fn banks_ok(ls: Seq<Seq<u8>>, k: nat) -> bool {
    forall|i: int| 0 <= i < ls.len() ==> #[trigger] bank_ok(ls[i], k)
}

/// Sum over the banks of the largest number that `k` of their digits spell.
pub open spec fn total_joltage(ls: Seq<Seq<u8>>, k: nat) -> nat
    decreases ls.len(),
{
    if ls.len() == 0 {
        0
    } else {
        total_joltage(ls.drop_last(), k) + digits_value(pick(ls.last(), 0, k))
    }
}

proof fn lemma_total_grows(ls: Seq<Seq<u8>>, k: nat, i: int)
    requires
        0 <= i <= ls.len(),
    ensures
        total_joltage(ls.take(i), k) <= total_joltage(ls, k),
    decreases ls.len() - i,
{
    if i < ls.len() {
        lemma_total_grows(ls, k, i + 1);
        assert(ls.take(i + 1).drop_last() =~= ls.take(i));
    } else {
        assert(ls.take(i) =~= ls);
    }
}

/// Sum over the lines of `input` of the largest number that `k` of their digits spell.
pub fn joltage(input: &str, k: usize) -> (r: Result<String, InputError>)
    requires
        k <= 19,
    ensures
        ({
            let ls = text_lines(input.spec_bytes());
            &&& r is Ok <==> banks_ok(ls, k as nat) && total_joltage(ls, k as nat) <= u64::MAX
            &&& r matches Ok(s) ==> s@ == decimal(total_joltage(ls, k as nat))
            &&& r matches Err(e) ==> e == if banks_ok(ls, k as nat) {
                InputError::TooLarge
            } else {
                InputError::Malformed
            }
        }),
{
    let ls = lines(input.as_bytes());
    let ghost model = text_lines(input.spec_bytes());
    let mut i: usize = 0;
    while i < ls.len()
        invariant
            model == text_lines(input.spec_bytes()),
            ls@.len() == model.len(),
            forall|j: int| 0 <= j < ls@.len() ==> #[trigger] ls@[j]@ == model[j],
            i <= ls@.len(),
            forall|j: int| 0 <= j < i ==> #[trigger] bank_ok(model[j], k as nat),
        decreases ls@.len() - i,
    {
        let line = &ls[i];
        assert(line@ == model[i as int]);
        if line.len() < k {
            assert(!bank_ok(model[i as int], k as nat));
            return Err(InputError::Malformed);
        }
        let mut j: usize = 0;
        while j < line.len()
            invariant
                model == text_lines(input.spec_bytes()),
                ls@.len() == model.len(),
                i < ls@.len(),
                line@ == model[i as int],
                line@.len() >= k,
                j <= line@.len(),
                forall|q: int| 0 <= q < j ==> #[trigger] is_digit(line@[q]),
            decreases line@.len() - j,
        {
            if line[j] < 48 || line[j] > 57 {
                assert(!is_digit(line@[j as int]));
                assert(!bank_ok(model[i as int], k as nat));
                return Err(InputError::Malformed);
            }
            j += 1;
        }
        assert(bank_ok(model[i as int], k as nat));
        i += 1;
    }
    let mut sum: u64 = 0;
    let mut i: usize = 0;
    assert(model.take(0) =~= Seq::<Seq<u8>>::empty());
    while i < ls.len()
        invariant
            model == text_lines(input.spec_bytes()),
            ls@.len() == model.len(),
            forall|j: int| 0 <= j < ls@.len() ==> #[trigger] ls@[j]@ == model[j],
            banks_ok(model, k as nat),
            k <= 19,
            i <= ls@.len(),
            sum == total_joltage(model.take(i as int), k as nat),
        decreases ls@.len() - i,
    {
        assert(model.take(i + 1).drop_last() =~= model.take(i as int));
        assert(ls@[i as int]@ == model[i as int]);
        assert(bank_ok(model[i as int], k as nat));
        let v = max_combination(ls[i].as_slice(), k);
        if sum > u64::MAX - v {
            proof {
                lemma_total_grows(model, k as nat, i + 1);
            }
            return Err(InputError::TooLarge);
        }
        sum = sum + v;
        i += 1;
    }
    assert(model.take(model.len() as int) =~= model);
    Ok(decimal_string(sum))
}

/// Total joltage of the banks when each turns on two batteries.
pub fn part1(input: String) -> (r: Result<String, InputError>)
    ensures
        ({
            let ls = text_lines(encode_utf8(input@));
            &&& r is Ok <==> banks_ok(ls, 2) && total_joltage(ls, 2) <= u64::MAX
            &&& r matches Ok(s) ==> s@ == decimal(total_joltage(ls, 2))
            &&& r matches Err(e) ==> e == if banks_ok(ls, 2) {
                InputError::TooLarge
            } else {
                InputError::Malformed
            }
        }),
{
    joltage(input.as_str(), 2)
}

/// Total joltage of the banks when each turns on twelve batteries.
pub fn part2(input: String) -> (r: Result<String, InputError>)
    ensures
        ({
            let ls = text_lines(encode_utf8(input@));
            &&& r is Ok <==> banks_ok(ls, 12) && total_joltage(ls, 12) <= u64::MAX
            &&& r matches Ok(s) ==> s@ == decimal(total_joltage(ls, 12))
            &&& r matches Err(e) ==> e == if banks_ok(ls, 12) {
                InputError::TooLarge
            } else {
                InputError::Malformed
            }
        }),
{
    joltage(input.as_str(), 12)
}

} // verus!
