use vstd::prelude::*;
use vstd::string::StringSliceAdditionalSpecFns;

verus! {

pub open spec fn is_digit(c: u8) -> bool {
    48 <= c <= 57
}

/// `c` separates numbers: it is neither a digit nor, where `minus` holds, a minus sign.
pub open spec fn is_separator(c: u8, minus: bool) -> bool {
    !(is_digit(c) || (minus && c == 45))
}

/// The pieces of `b` between separators, empty pieces included.
pub open spec fn pieces_of(b: Seq<u8>, minus: bool) -> Seq<Seq<u8>>
    decreases b.len(),
{
    if b.len() == 0 {
        seq![Seq::empty()]
    } else {
        let prev = pieces_of(b.drop_last(), minus);
        if is_separator(b.last(), minus) {
            prev.push(Seq::empty())
        } else {
            prev.update(prev.len() - 1, prev.last().push(b.last()))
        }
    }
}

/// The number that the decimal digits `s` spell.
pub open spec fn digits_value(s: Seq<u8>) -> nat
    decreases s.len(),
{
    if s.len() == 0 {
        0
    } else {
        digits_value(s.drop_last()) * 10 + (s.last() - 48) as nat
    }
}

pub open spec fn all_digits(s: Seq<u8>) -> bool {
    forall|i: int| 0 <= i < s.len() ==> #[trigger] is_digit(s[i])
}

/// `s` read as an unsigned decimal that fits a `u64`.
pub open spec fn u64_of(s: Seq<u8>) -> Option<u64> {
    if s.len() > 0 && all_digits(s) && digits_value(s) <= u64::MAX {
        Some(digits_value(s) as u64)
    } else {
        None
    }
}

/// `s` read as a decimal with an optional leading minus sign that fits an `i64`.
pub open spec fn i64_of(s: Seq<u8>) -> Option<i64> {
    if s.len() > 0 && s[0] == 45 {
        let t = s.skip(1);
        if t.len() > 0 && all_digits(t) && digits_value(t) <= 0x8000_0000_0000_0000 {
            Some((-(digits_value(t) as int)) as i64)
        } else {
            None
        }
    } else if s.len() > 0 && all_digits(s) && digits_value(s) <= i64::MAX {
        Some(digits_value(s) as i64)
    } else {
        None
    }
}

/// The values of the pieces that read as a `u64`, in order.
pub open spec fn kept_u64(ps: Seq<Seq<u8>>) -> Seq<u64>
    decreases ps.len(),
{
    if ps.len() == 0 {
        Seq::empty()
    } else {
        let prev = kept_u64(ps.drop_last());
        match u64_of(ps.last()) {
            Some(v) => prev.push(v),
            None => prev,
        }
    }
}

/// The values of the pieces that read as an `i64`, in order.
pub open spec fn kept_i64(ps: Seq<Seq<u8>>) -> Seq<i64>
    decreases ps.len(),
{
    if ps.len() == 0 {
        Seq::empty()
    } else {
        let prev = kept_i64(ps.drop_last());
        match i64_of(ps.last()) {
            Some(v) => prev.push(v),
            None => prev,
        }
    }
}

proof fn lemma_pieces_nonempty(b: Seq<u8>, minus: bool)
    ensures
        pieces_of(b, minus).len() >= 1,
    decreases b.len(),
{
    if b.len() > 0 {
        lemma_pieces_nonempty(b.drop_last(), minus);
    }
}

/// Reads the decimal digits `s`, or `None` where `s` is empty, holds another byte or
/// spells a number beyond `u64::MAX`.
pub fn parse_u64(s: &[u8]) -> (r: Option<u64>)
    ensures
        r == u64_of(s@),
{
    if s.len() == 0 {
        return None;
    }
    let mut acc: u64 = 0;
    let mut i: usize = 0;
    while i < s.len()
        invariant
            i <= s@.len(),
            all_digits(s@.take(i as int)),
            acc == digits_value(s@.take(i as int)),
        decreases s@.len() - i,
    {
        assert(s@.take(i + 1).drop_last() =~= s@.take(i as int));
        let c = s[i];
        if c < 48 || c > 57 {
            assert(!is_digit(s@[i as int]));
            return None;
        }
        let d = (c - 48) as u64;
        if acc > (u64::MAX - d) / 10 {
            proof {
                lemma_value_grows(s@, i as int + 1);
            }
            return None;
        }
        acc = acc * 10 + d;
        i += 1;
    }
    assert(s@.take(s@.len() as int) =~= s@);
    Some(acc)
}

/// Once the value of a prefix exceeds `u64::MAX`, so does the value of the whole.
pub proof fn lemma_value_grows(s: Seq<u8>, k: int)
    requires
        0 < k <= s.len(),
        digits_value(s.take(k)) > u64::MAX,
    ensures
        digits_value(s) > u64::MAX,
    decreases s.len() - k,
{
    if k < s.len() {
        assert(s.take(k + 1).drop_last() =~= s.take(k));
        lemma_value_grows(s, k + 1);
    } else {
        assert(s.take(k) =~= s);
    }
}

/// Reads a decimal with an optional leading minus sign, or `None` where it does not spell
/// an `i64`.
pub fn parse_i64(s: &[u8]) -> (r: Option<i64>)
    ensures
        r == i64_of(s@),
{
    if s.len() > 0 && s[0] == 45 {
        let t = &s[1..s.len()];
        assert(t@ =~= s@.skip(1));
        match parse_u64(t) {
            Some(v) => {
                if v <= 0x8000_0000_0000_0000 {
                    if v == 0x8000_0000_0000_0000 {
                        Some(i64::MIN)
                    } else {
                        Some(-(v as i64))
                    }
                } else {
                    None
                }
            },
            None => {
                proof {
                    if t@.len() > 0 && all_digits(t@) {
                        assert(digits_value(t@) > u64::MAX);
                    }
                }
                None
            },
        }
    } else {
        match parse_u64(s) {
            Some(v) => {
                if v <= i64::MAX as u64 {
                    Some(v as i64)
                } else {
                    None
                }
            },
            None => None,
        }
    }
}

/// Splits `b` at separators into its pieces.
fn pieces(b: &[u8], minus: bool) -> (r: Vec<Vec<u8>>)
    ensures
        r@.len() == pieces_of(b@, minus).len(),
        forall|k: int| 0 <= k < r@.len() ==> #[trigger] r@[k]@ == pieces_of(b@, minus)[k],
{
    let mut out: Vec<Vec<u8>> = Vec::new();
    let mut cur: Vec<u8> = Vec::new();
    let ghost mut done: Seq<Seq<u8>> = Seq::empty();
    let mut i: usize = 0;
    proof {
        assert(b@.take(0) =~= Seq::<u8>::empty());
        assert(done.push(cur@) =~= seq![Seq::<u8>::empty()]);
    }
    while i < b.len()
        invariant
            i <= b.len(),
            out@.len() == done.len(),
            forall|k: int| 0 <= k < done.len() ==> #[trigger] out@[k]@ == done[k],
            done.push(cur@) == pieces_of(b@.take(i as int), minus),
        decreases b.len() - i,
    {
        proof {
            assert(b@.take(i + 1).drop_last() =~= b@.take(i as int));
            lemma_pieces_nonempty(b@.take(i as int), minus);
        }
        let ghost before = done.push(cur@);
        let c = b[i];
        if !((c >= 48 && c <= 57) || (minus && c == 45)) {
            proof {
                done = done.push(cur@);
            }
            out.push(cur);
            cur = Vec::new();
            assert(done.push(cur@) =~= before.push(Seq::empty()));
        } else {
            cur.push(c);
            assert(done.push(cur@) =~= before.update(before.len() - 1, before.last().push(c)));
        }
        i += 1;
    }
    proof {
        done = done.push(cur@);
        assert(b@.take(b@.len() as int) =~= b@);
    }
    out.push(cur);
    out
}

/// Every unsigned decimal number in `s` that fits a `u64`, in order; anything that is not
/// a digit separates numbers.
pub fn uints(s: &str) -> (r: Vec<u64>)
    ensures
        r@ == kept_u64(pieces_of(s.spec_bytes(), false)),
{
    let ps = pieces(s.as_bytes(), false);
    let ghost model = pieces_of(s.spec_bytes(), false);
    let mut out: Vec<u64> = Vec::new();
    let mut k: usize = 0;
    assert(model.take(0) =~= Seq::<Seq<u8>>::empty());
    while k < ps.len()
        invariant
            model == pieces_of(s.spec_bytes(), false),
            ps@.len() == model.len(),
            forall|j: int| 0 <= j < ps@.len() ==> #[trigger] ps@[j]@ == model[j],
            k <= ps@.len(),
            out@ == kept_u64(model.take(k as int)),
        decreases ps@.len() - k,
    {
        assert(model.take(k + 1).drop_last() =~= model.take(k as int));
        assert(ps@[k as int]@ == model[k as int]);
        match parse_u64(ps[k].as_slice()) {
            Some(v) => out.push(v),
            None => {},
        }
        k += 1;
    }
    assert(model.take(model.len() as int) =~= model);
    out
}

/// Every decimal number in `s`, with an optional leading minus sign, that fits an `i64`,
/// in order; anything that is neither a digit nor a minus sign separates numbers.
pub fn ints(s: &str) -> (r: Vec<i64>)
    ensures
        r@ == kept_i64(pieces_of(s.spec_bytes(), true)),
{
    let ps = pieces(s.as_bytes(), true);
    let ghost model = pieces_of(s.spec_bytes(), true);
    let mut out: Vec<i64> = Vec::new();
    let mut k: usize = 0;
    assert(model.take(0) =~= Seq::<Seq<u8>>::empty());
    while k < ps.len()
        invariant
            model == pieces_of(s.spec_bytes(), true),
            ps@.len() == model.len(),
            forall|j: int| 0 <= j < ps@.len() ==> #[trigger] ps@[j]@ == model[j],
            k <= ps@.len(),
            out@ == kept_i64(model.take(k as int)),
        decreases ps@.len() - k,
    {
        assert(model.take(k + 1).drop_last() =~= model.take(k as int));
        assert(ps@[k as int]@ == model[k as int]);
        match parse_i64(ps[k].as_slice()) {
            Some(v) => out.push(v),
            None => {},
        }
        k += 1;
    }
    assert(model.take(model.len() as int) =~= model);
    out
}

/// `s` from its first digit on.
pub open spec fn skip_nondigits(s: Seq<u8>) -> Seq<u8>
    decreases s.len(),
{
    if s.len() == 0 || is_digit(s[0]) {
        s
    } else {
        skip_nondigits(s.skip(1))
    }
}

/// The digits that `s` starts with.
pub open spec fn lead_digits(s: Seq<u8>) -> Seq<u8>
    decreases s.len(),
{
    if s.len() == 0 || !is_digit(s[0]) {
        Seq::empty()
    } else {
        seq![s[0]] + lead_digits(s.skip(1))
    }
}

/// The first number written in `s`; 0 where there is none.
pub open spec fn number_in(s: Seq<u8>) -> nat {
    digits_value(lead_digits(skip_nondigits(s)))
}

proof fn lemma_skip_nondigits(s: Seq<u8>, start: int, p: int)
    requires
        0 <= start <= p <= s.len(),
        forall|j: int| start <= j < p ==> !is_digit(#[trigger] s[j]),
        p == s.len() || is_digit(s[p]),
    ensures
        skip_nondigits(s.subrange(start, s.len() as int)) == s.subrange(p, s.len() as int),
    decreases p - start,
{
    if start < p {
        lemma_skip_nondigits(s, start + 1, p);
        assert(s.subrange(start, s.len() as int).skip(1) =~= s.subrange(start + 1, s.len() as int));
    }
}

pub proof fn lemma_lead_digits(s: Seq<u8>, p: int, q: int)
    requires
        0 <= p <= q <= s.len(),
        forall|j: int| p <= j < q ==> is_digit(#[trigger] s[j]),
        q == s.len() || !is_digit(s[q]),
    ensures
        lead_digits(s.subrange(p, s.len() as int)) == s.subrange(p, q),
    decreases q - p,
{
    if p < q {
        lemma_lead_digits(s, p + 1, q);
        assert(s.subrange(p, s.len() as int).skip(1) =~= s.subrange(p + 1, s.len() as int));
        assert(seq![s[p]] + s.subrange(p + 1, q) =~= s.subrange(p, q));
    } else {
        assert(s.subrange(p, q) =~= Seq::<u8>::empty());
    }
}

/// The first number written in `s` from index `start` on, or `None` beyond `u64::MAX`.
pub fn number_at(s: &[u8], start: usize) -> (r: Option<u64>)
    requires
        start <= s@.len(),
    ensures
        r matches Some(v) ==> v == number_in(s@.skip(start as int)),
        r is None <==> number_in(s@.skip(start as int)) > u64::MAX,
{
    let mut p = start;
    while p < s.len() && !(s[p] >= 48 && s[p] <= 57)
        invariant
            start <= p <= s@.len(),
            forall|j: int| start <= j < p ==> !is_digit(#[trigger] s@[j]),
        decreases s@.len() - p,
    {
        p += 1;
    }
    let mut q = p;
    let mut acc: u64 = 0;
    let mut overflow = false;
    while q < s.len() && s[q] >= 48 && s[q] <= 57
        invariant
            start <= p <= q <= s@.len(),
            forall|j: int| p <= j < q ==> is_digit(#[trigger] s@[j]),
            !overflow ==> acc == digits_value(s@.subrange(p as int, q as int)),
            overflow ==> digits_value(s@.subrange(p as int, q as int)) > u64::MAX,
        decreases s@.len() - q,
    {
        let d = (s[q] - 48) as u64;
        assert(s@.subrange(p as int, q + 1).drop_last() =~= s@.subrange(p as int, q as int));
        if overflow || acc > (u64::MAX - d) / 10 {
            if !overflow {
                assert(digits_value(s@.subrange(p as int, q + 1)) > u64::MAX);
            } else {
                proof {
                    lemma_value_grows(s@.subrange(p as int, q + 1), q - p);
                    assert(s@.subrange(p as int, q + 1).take(q - p) =~= s@.subrange(p as int, q as int));
                }
            }
            overflow = true;
        } else {
            acc = acc * 10 + d;
        }
        q += 1;
    }
    proof {
        assert(s@.skip(start as int) =~= s@.subrange(start as int, s@.len() as int));
        lemma_skip_nondigits(s@, start as int, p as int);
        lemma_lead_digits(s@, p as int, q as int);
    }
    if overflow {
        None
    } else {
        Some(acc)
    }
}

} // verus!
