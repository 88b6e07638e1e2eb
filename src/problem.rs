use crate::solution::Part;
use crate::text::{contains_seq, find_bytes};
use vstd::prelude::*;
use vstd::string::{StringSliceAdditionalSpecFns, StrSliceExecFns};
use vstd::utf8::encode_utf8;

verus! {

/// A block of code quoted in a puzzle's page.
#[derive(Debug, Clone, PartialEq, Eq)]
pub struct CodeBlock {
    pub content: String,
    pub emphasized: bool,
}

impl CodeBlock {
    /// The block spans more than one line: it holds a newline.
    pub fn multiline(&self) -> (r: bool)
        ensures
            r == encode_utf8(self.content@).contains(10u8),
    {
        let b = self.content.as_str().as_bytes();
        let mut i: usize = 0;
        while i < b.len()
            invariant
                b@ == encode_utf8(self.content@),
                i <= b@.len(),
                forall|j: int| 0 <= j < i ==> b@[j] != 10,
            decreases b@.len() - i,
        {
            if b[i] == 10 {
                return true;
            }
            i += 1;
        }
        false
    }
}

/// `from` replaced in `s` by `to` at each of its occurrences, from the left and without
/// overlap.
pub open spec fn replaced(s: Seq<char>, from: Seq<char>, to: Seq<char>) -> Seq<char>
    decreases s.len(),
{
    if from.len() == 0 || s.len() < from.len() {
        s
    } else if s.take(from.len() as int) == from {
        to + replaced(s.skip(from.len() as int), from, to)
    } else {
        seq![s[0]] + replaced(s.skip(1), from, to)
    }
}

/// Relies on `str::replace`: every non-overlapping match of `from`, from the left, replaced
/// by `to`.
#[verifier::external_body]
fn replace_all(s: &str, from: &str, to: &str) -> (r: String)
    requires
        from@.len() > 0,
    ensures
        r@ == replaced(s@, from@, to@),
{
    s.replace(from, to)
}

/// `s` with the five entities of HTML's special characters turned back into characters,
/// one entity after the other.
pub open spec fn unescaped(s: Seq<char>) -> Seq<char> {
    replaced(
        replaced(
            replaced(replaced(replaced(s, "&lt;"@, "<"@), "&gt;"@, ">"@), "&amp;"@, "&"@),
            "&quot;"@,
            "\""@,
        ),
        "&#39;"@,
        "'"@,
    )
}

/// Turns the entities `&lt;`, `&gt;`, `&amp;`, `&quot;` and `&#39;` back into characters,
/// in that order.
pub fn html_unescape(input: &str) -> (r: String)
    ensures
        r@ == unescaped(input@),
{
    proof {
        reveal_strlit("&lt;");
        reveal_strlit("&gt;");
        reveal_strlit("&amp;");
        reveal_strlit("&quot;");
        reveal_strlit("&#39;");
    }
    let a = replace_all(input, "&lt;", "<");
    let b = replace_all(a.as_str(), "&gt;", ">");
    let c = replace_all(b.as_str(), "&amp;", "&");
    let d = replace_all(c.as_str(), "&quot;", "\"");
    replace_all(d.as_str(), "&#39;", "'")
}

/// The page shows the second part of the puzzle.
pub fn part_two_unlocked(problem_html: &str) -> (r: bool)
    ensures
        r == contains_seq(problem_html.spec_bytes(), "--- Part Two ---".spec_bytes()),
{
    find_bytes(problem_html.as_bytes(), "--- Part Two ---".as_bytes()).is_some()
}

/// The parts of the puzzle that the page shows.
pub fn unlocked_parts(problem_html: &str) -> (r: Vec<Part>)
    ensures
        r@ == if contains_seq(problem_html.spec_bytes(), "--- Part Two ---".spec_bytes()) {
            seq![Part::One, Part::Two]
        } else {
            seq![Part::One]
        },
{
    let mut r: Vec<Part> = Vec::new();
    r.push(Part::One);
    if part_two_unlocked(problem_html) {
        r.push(Part::Two);
    }
    assert(r@ =~= if contains_seq(problem_html.spec_bytes(), "--- Part Two ---".spec_bytes()) {
        seq![Part::One, Part::Two]
    } else {
        seq![Part::One]
    });
    r
}

} // verus!
