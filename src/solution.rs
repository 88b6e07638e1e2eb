use crate::event_date::EventDate;
use crate::parse::{is_digit, lead_digits, lemma_lead_digits, parse_u64, u64_of};
use crate::text::occurs_at;
use vstd::prelude::*;
use vstd::string::{StrSliceExecFns, StringExecFns, StringSliceAdditionalSpecFns};

verus! {

/// One of the two parts of a puzzle.
#[derive(Clone, Copy, Debug, PartialEq, Eq, Structural)]
pub enum Part {
    One,
    Two,
}

impl Part {
    pub open spec fn spec_to_int(self) -> u8 {
        match self {
            Part::One => 1,
            Part::Two => 2,
        }
    }

    /// The part's number.
    pub fn to_int(&self) -> (n: u8)
        ensures
            n == self.spec_to_int(),
    {
        match self {
            Part::One => 1,
            Part::Two => 2,
        }
    }

    /// The part that `s` names: "1" or "2".
    pub fn parse(s: &str) -> (p: Option<Part>)
        ensures
            s@ == "1"@ ==> p == Some(Part::One),
            s@ == "2"@ ==> p == Some(Part::Two),
            s@ != "1"@ && s@ != "2"@ ==> p is None,
    {
        proof {
            reveal_strlit("1");
            reveal_strlit("2");
        }
        if s.unicode_len() != 1 {
            return None;
        }
        let c = s.get_char(0);
        if c == '1' {
            assert(s@ =~= "1"@);
            Some(Part::One)
        } else if c == '2' {
            assert(s@ =~= "2"@);
            Some(Part::Two)
        } else {
            None
        }
    }
}

/// Why a puzzle input could not be solved.
#[derive(Clone, Copy, Debug, PartialEq, Eq, Structural)]
pub enum InputError {
    /// The input does not have the puzzle's format.
    Malformed,
    /// The answer does not fit the integer type it is computed in.
    TooLarge,
}

/// How a run of a solution ended.
pub enum ExecResult {
    Complete { answer: String, duration_secs: u64, duration_subsec_ns: u32 },
    Failed(String),
}

/// Why the report of a run could not be read.
#[derive(Clone, Copy, Debug, PartialEq, Eq, Structural)]
pub enum ReportError {
    /// No line of the form `Duration: <secs>s, <nanos>ns` was printed.
    MissingDuration,
    /// A number of the duration does not fit its type.
    BadNumber,
}

pub open spec fn duration_tag() -> Seq<u8> {
    seq![68u8, 117, 114, 97, 116, 105, 111, 110, 58, 32]
}

pub open spec fn secs_tag() -> Seq<u8> {
    seq![115u8, 44, 32]
}

pub open spec fn nanos_tag() -> Seq<u8> {
    seq![110u8, 115]
}

/// The seconds' and nanoseconds' digits of a duration report `Duration: <d>s, <d>ns`
/// starting at index `i`.
pub open spec fn duration_at(b: Seq<u8>, i: int) -> Option<(Seq<u8>, Seq<u8>)> {
    let j = i + 10;
    let d1 = lead_digits(b.skip(j));
    let k = j + d1.len() + 3;
    let d2 = lead_digits(b.skip(k));
    if occurs_at(b, duration_tag(), i) && d1.len() > 0 && occurs_at(b, secs_tag(), j + d1.len())
        && d2.len() > 0 && occurs_at(b, nanos_tag(), k + d2.len()) {
        Some((d1, d2))
    } else {
        None
    }
}

/// `i` is the first index at which a duration report starts.
pub open spec fn first_duration(b: Seq<u8>, i: int) -> bool {
    &&& duration_at(b, i) is Some
    &&& forall|j: int| 0 <= j < i ==> duration_at(b, j) is None
}

/// What `str::trim` leaves of `s`.
pub uninterp spec fn trimmed(s: Seq<char>) -> Seq<char>;

/// Relies on `str::trim`: the text without its leading and trailing white space.
#[verifier::external_body]
fn trim_text(s: &str) -> (r: String)
    ensures
        r@ == trimmed(s@),
{
    s.trim().to_string()
}

/// Whether `n` occurs in `b` at `i`.
fn bytes_at(b: &[u8], n: &[u8], i: usize) -> (r: bool)
    ensures
        r == occurs_at(b@, n@, i as int),
{
    if i > b.len() || n.len() > b.len() - i {
        return false;
    }
    let bl = b.len();
    let mut k: usize = 0;
    while k < n.len()
        invariant
            bl == b@.len(),
            i + n@.len() <= b@.len(),
            k <= n@.len(),
            forall|q: int| 0 <= q < k ==> b@[i + q] == n@[q],
        decreases n@.len() - k,
    {
        if b[i + k] != n[k] {
            assert(b@.subrange(i as int, i + n@.len())[k as int] != n@[k as int]);
            return false;
        }
        k += 1;
    }
    assert(b@.subrange(i as int, i + n@.len()) =~= n@);
    true
}

/// End of the run of digits of `b` that starts at `j`.
fn digits_end(b: &[u8], j: usize) -> (q: usize)
    requires
        j <= b@.len(),
    ensures
        j <= q <= b@.len(),
        lead_digits(b@.skip(j as int)) == b@.subrange(j as int, q as int),
{
    let mut q = j;
    while q < b.len() && b[q] >= 48 && b[q] <= 57
        invariant
            j <= q <= b@.len(),
            forall|x: int| j <= x < q ==> is_digit(#[trigger] b@[x]),
        decreases b@.len() - q,
    {
        q += 1;
    }
    proof {
        lemma_lead_digits(b@, j as int, q as int);
        assert(b@.skip(j as int) =~= b@.subrange(j as int, b@.len() as int));
    }
    q
}

/// The digits of a duration report starting at `i`, as index ranges.
fn duration_digits(b: &[u8], i: usize) -> (r: Option<(usize, usize, usize, usize)>)
    ensures
        r is Some <==> duration_at(b@, i as int) is Some,
        r matches Some(x) ==> x.0 <= x.1 <= b@.len() && x.2 <= x.3 <= b@.len() && duration_at(
            b@,
            i as int,
        ) == Some((b@.subrange(x.0 as int, x.1 as int), b@.subrange(x.2 as int, x.3 as int))),
{
    let tag: [u8; 10] = [68, 117, 114, 97, 116, 105, 111, 110, 58, 32];
    assert(tag@ =~= duration_tag());
    let bl = b.len();
    if !bytes_at(b, tag.as_slice(), i) {
        return None;
    }
    assert(i + 10 <= bl);
    let j = i + 10;
    let e1 = digits_end(b, j);
    let secs: [u8; 3] = [115, 44, 32];
    assert(secs@ =~= secs_tag());
    if e1 == j || !bytes_at(b, secs.as_slice(), e1) {
        return None;
    }
    assert(e1 + 3 <= bl);
    let k = e1 + 3;
    let e2 = digits_end(b, k);
    let nanos: [u8; 2] = [110, 115];
    assert(nanos@ =~= nanos_tag());
    if e2 == k || !bytes_at(b, nanos.as_slice(), e2) {
        return None;
    }
    Some((j, e1, k, e2))
}

impl ExecResult {
    /// A completed run: the answer printed, trimmed, and the duration from the first report
    /// `Duration: <secs>s, <nanos>ns` printed on the error stream.
    pub fn parse(stdout: &str, stderr: &str) -> (r: Result<ExecResult, ReportError>)
        ensures
            ({
                let b = stderr.spec_bytes();
                &&& r == Err::<ExecResult, ReportError>(ReportError::MissingDuration) <==> forall|
                    i: int,
                | duration_at(b, i) is None
                &&& forall|i: int|
                    first_duration(b, i) ==> {
                        let (d1, d2) = duration_at(b, i)->0;
                        let ok = u64_of(d1) is Some && u64_of(d2) is Some && u64_of(d2)->0
                            <= u32::MAX;
                        &&& r is Ok <==> ok
                        &&& !ok ==> r == Err::<ExecResult, ReportError>(ReportError::BadNumber)
                        &&& r matches Ok(ExecResult::Complete {
                            answer,
                            duration_secs,
                            duration_subsec_ns,
                        }) ==> answer@ == trimmed(stdout@) && duration_secs == u64_of(d1)->0
                            && duration_subsec_ns == u64_of(d2)->0
                    }
                &&& r matches Ok(x) ==> x is Complete
            }),
    {
        let b = stderr.as_bytes();
        let mut i: usize = 0;
        while i < b.len()
            invariant
                b@ == stderr.spec_bytes(),
                i <= b@.len(),
                forall|j: int| 0 <= j < i ==> duration_at(b@, j) is None,
            decreases b@.len() - i,
        {
            match duration_digits(b, i) {
                Some((s0, s1, n0, n1)) => {
                    let secs = parse_u64(&b[s0..s1]);
                    let nanos = parse_u64(&b[n0..n1]);
                    assert(first_duration(b@, i as int));
                    match (secs, nanos) {
                        (Some(sv), Some(nv)) => {
                            if nv > u32::MAX as u64 {
                                return Err(ReportError::BadNumber);
                            }
                            return Ok(
                                ExecResult::Complete {
                                    answer: trim_text(stdout),
                                    duration_secs: sv,
                                    duration_subsec_ns: nv as u32,
                                },
                            );
                        },
                        _ => {
                            return Err(ReportError::BadNumber);
                        },
                    }
                },
                None => {},
            }
            i += 1;
        }
        assert forall|j: int| duration_at(b@, j) is None by {
            if j >= b@.len() || j < 0 {
                if j >= 0 {
                    assert(!occurs_at(b@, duration_tag(), j));
                }
            }
        }
        Err(ReportError::MissingDuration)
    }
}

pub open spec fn digit_char(d: nat) -> char {
    ((d + 48) as u8) as char
}

/// The decimal digits of `n`, most significant first, without leading zeros.
pub open spec fn decimal(n: nat) -> Seq<char>
    decreases n,
{
    if n < 10 {
        seq![digit_char(n)]
    } else {
        decimal(n / 10).push(digit_char(n % 10))
    }
}

/// Relies on `u64`'s `Display`, through `to_string`: the number in decimal.
#[verifier::external_body]
pub(crate) fn decimal_string(n: u64) -> (s: String)
    ensures
        s@ == decimal(n as nat),
{
    n.to_string()
}

/// `decimal(n)`, with a leading zero where it has a single digit.
pub open spec fn two_digits(n: nat) -> Seq<char> {
    if n < 10 {
        seq!['0'].add(decimal(n))
    } else {
        decimal(n)
    }
}

/// Name of the program that solves the puzzle of `date`: `day_DD_YYYY`.
pub fn bin_name(date: &EventDate) -> (s: String)
    ensures
        s@ == "day_"@ + two_digits(date.day as nat) + "_"@ + decimal(date.year as nat),
{
    let mut s = String::from_str("day_");
    if date.day < 10 {
        s.append("0");
    }
    let day = decimal_string(date.day as u64);
    s.append(day.as_str());
    s.append("_");
    let year = decimal_string(date.year as u64);
    s.append(year.as_str());
    proof {
        reveal_strlit("0");
        assert(seq!['0'] =~= "0"@);
        if date.day < 10 {
            assert("day_"@ + "0"@ + decimal(date.day as nat) =~= "day_"@ + two_digits(
                date.day as nat,
            ));
        }
    }
    s
}

/// Path, from the project's root, of the source of the solution for `date`.
pub fn solution_path(date: &EventDate) -> (s: String)
    ensures
        s@ == "src/solutions/"@ + "day_"@ + two_digits(date.day as nat) + "_"@ + decimal(
            date.year as nat,
        ) + ".rs"@,
{
    let name = bin_name(date);
    let mut s = String::from_str("src/solutions/");
    s.append(name.as_str());
    s.append(".rs");
    proof {
        assert("src/solutions/"@ + name@ + ".rs"@ =~= "src/solutions/"@ + "day_"@ + two_digits(
            date.day as nat,
        ) + "_"@ + decimal(date.year as nat) + ".rs"@);
    }
    s
}

} // verus!
