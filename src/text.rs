use vstd::prelude::*;

verus! {

/// The lines of `b` cut at every occurrence of `d`; the delimiters are dropped and a text
/// with `k` delimiters has `k + 1` lines.
pub open spec fn lines_of(b: Seq<u8>, d: u8) -> Seq<Seq<u8>>
    decreases b.len(),
{
    if b.len() == 0 {
        seq![Seq::empty()]
    } else {
        let prev = lines_of(b.drop_last(), d);
        if b.last() == d {
            prev.push(Seq::empty())
        } else {
            prev.update(prev.len() - 1, prev.last().push(b.last()))
        }
    }
}

pub proof fn lemma_lines_nonempty(b: Seq<u8>, d: u8)
    ensures
        lines_of(b, d).len() >= 1,
    decreases b.len(),
{
    if b.len() > 0 {
        lemma_lines_nonempty(b.drop_last(), d);
    }
}

/// Splits `b` into its lines at every byte equal to `d`.
pub fn split_lines(b: &[u8], d: u8) -> (r: Vec<Vec<u8>>)
    ensures
        r.deep_view() == lines_of(b@, d),
{
    let mut lines: Vec<Vec<u8>> = Vec::new();
    let mut cur: Vec<u8> = Vec::new();
    let ghost mut done: Seq<Seq<u8>> = Seq::empty();
    let mut i: usize = 0;
    proof {
        assert(b@.take(0) =~= Seq::<u8>::empty());
        assert(done.push(cur@) =~= seq![Seq::<u8>::empty()]);
    }
    while i < b.len()
        invariant
            i <= b.len(),
            lines@.len() == done.len(),
            forall|k: int| 0 <= k < done.len() ==> #[trigger] lines@[k]@ == done[k],
            done.push(cur@) == lines_of(b@.take(i as int), d),
        decreases b.len() - i,
    {
        proof {
            assert(b@.take(i + 1).drop_last() =~= b@.take(i as int));
            lemma_lines_nonempty(b@.take(i as int), d);
        }
        let ghost before = done.push(cur@);
        if b[i] == d {
            proof {
                done = done.push(cur@);
            }
            lines.push(cur);
            cur = Vec::new();
            assert(done.push(cur@) =~= before.push(Seq::empty()));
        } else {
            cur.push(b[i]);
            assert(done.push(cur@) =~= before.update(before.len() - 1, before.last().push(b[i as int])));
        }
        i += 1;
    }
    proof {
        done = done.push(cur@);
    }
    lines.push(cur);
    proof {
        assert(b@.take(b@.len() as int) =~= b@);
        assert forall|k: int| 0 <= k < done.len() implies #[trigger] lines.deep_view()[k] == done[k] by {
            assert(lines.deep_view()[k] =~= lines@[k]@);
        }
        assert(lines.deep_view() =~= done);
    }
    lines
}

/// The lines of a text: cut at each newline, with no last empty line after a final newline,
/// and none at all in an empty text.
pub open spec fn text_lines(b: Seq<u8>) -> Seq<Seq<u8>> {
    if b.len() == 0 {
        Seq::empty()
    } else if b.last() == 10 {
        lines_of(b.drop_last(), 10)
    } else {
        lines_of(b, 10)
    }
}

/// The lines of `b`, as `text_lines` cuts them.
pub fn lines(b: &[u8]) -> (r: Vec<Vec<u8>>)
    ensures
        r@.len() == text_lines(b@).len(),
        forall|k: int| 0 <= k < r@.len() ==> #[trigger] r@[k]@ == text_lines(b@)[k],
{
    let r = if b.len() == 0 {
        Vec::new()
    } else if b[b.len() - 1] == 10 {
        let body = &b[0..b.len() - 1];
        assert(body@ =~= b@.drop_last());
        split_lines(body, 10)
    } else {
        split_lines(b, 10)
    };
    assert forall|k: int| 0 <= k < r@.len() implies #[trigger] r@[k]@ == text_lines(b@)[k] by {
        assert(r.deep_view()[k] =~= r@[k]@);
    }
    r
}

/// `n` occurs in `h` at index `i`.
pub open spec fn occurs_at(h: Seq<u8>, n: Seq<u8>, i: int) -> bool {
    0 <= i && i + n.len() <= h.len() && h.subrange(i, i + n.len()) == n
}

/// `n` occurs somewhere in `h`.
pub open spec fn contains_seq(h: Seq<u8>, n: Seq<u8>) -> bool {
    exists|i: int| occurs_at(h, n, i)
}

/// Index of the first occurrence of `n` in `h`.
pub fn find_bytes(h: &[u8], n: &[u8]) -> (r: Option<usize>)
    ensures
        r matches Some(i) ==> occurs_at(h@, n@, i as int) && forall|j: int|
            0 <= j < i ==> !occurs_at(h@, n@, j),
        r is None ==> forall|j: int| !occurs_at(h@, n@, j),
        r is Some <==> contains_seq(h@, n@),
{
    if n.len() > h.len() {
        return None;
    }
    if n.len() == 0 {
        assert(h@.subrange(0, 0) =~= n@);
        assert(occurs_at(h@, n@, 0));
        return Some(0);
    }
    let mut i: usize = 0;
    let hl = h.len();
    let last = hl - n.len();
    while i <= last
        invariant
            hl == h@.len(),
            last == h@.len() - n@.len(),
            0 < n@.len() <= h@.len(),
            i <= h@.len() - n@.len() + 1,
            forall|j: int| 0 <= j < i ==> !occurs_at(h@, n@, j),
        decreases h@.len() - i,
    {
        let mut k: usize = 0;
        let mut same = true;
        while k < n.len()
            invariant
                hl == h@.len(),
                i <= last,
                last == h@.len() - n@.len(),
                i + n@.len() <= h@.len(),
                k <= n@.len(),
                same <==> forall|q: int| 0 <= q < k ==> h@[i + q] == n@[q],
            decreases n@.len() - k,
        {
            assert(i + k < h@.len());
            if h[i + k] != n[k] {
                same = false;
            }
            k += 1;
        }
        if same {
            assert(h@.subrange(i as int, i + n@.len()) =~= n@);
            assert(occurs_at(h@, n@, i as int));
            return Some(i);
        }
        assert(!occurs_at(h@, n@, i as int)) by {
            if occurs_at(h@, n@, i as int) {
                assert forall|q: int| 0 <= q < n@.len() implies h@[i + q] == n@[q] by {
                    assert(h@.subrange(i as int, i + n@.len())[q] == h@[i + q]);
                }
            }
        }
        i += 1;
    }
    None
}

/// Index of the last byte of `h` equal to `b`.
pub fn rfind_byte(h: &[u8], b: u8) -> (r: Option<usize>)
    ensures
        r matches Some(i) ==> i < h@.len() && h@[i as int] == b && forall|j: int|
            i < j < h@.len() ==> h@[j] != b,
        r is None ==> forall|j: int| 0 <= j < h@.len() ==> h@[j] != b,
{
    let mut i: usize = h.len();
    while i > 0
        invariant
            i <= h@.len(),
            forall|j: int| i <= j < h@.len() ==> h@[j] != b,
        decreases i,
    {
        if h[i - 1] == b {
            return Some(i - 1);
        }
        i -= 1;
    }
    None
}

} // verus!
