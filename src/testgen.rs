use crate::parse::{all_digits, digits_value, is_digit};
use crate::problem::CodeBlock;
use crate::solution::{decimal, decimal_string, Part};
use crate::text::rfind_byte;
use vstd::prelude::*;
use vstd::string::{StringExecFns, StringSliceAdditionalSpecFns};
use vstd::utf8::encode_utf8;

verus! {

/// How likely a code block is to be an example input: multi-line blocks first, then
/// longer ones, counting at most 100 bytes.
pub open spec fn input_score(content: Seq<u8>) -> int {
    (if content.contains(10u8) {
        100int
    } else {
        0int
    }) + if content.len() < 100 {
        content.len() as int
    } else {
        100int
    }
}

/// How likely a code block is to be an example answer: emphasized blocks first; among
/// blocks under 100 bytes, a number adds its value (at most `u32::MAX` in all, an empty
/// block counting as `u32::MAX`), other text its length.
pub open spec fn solution_score(content: Seq<u8>, emphasized: bool) -> int {
    let base: int = if emphasized {
        100
    } else {
        0
    };
    if content.len() < 100 {
        if all_digits(content) {
            let v: int = if content.len() > 0 && digits_value(content) <= u32::MAX {
                digits_value(content) as int
            } else {
                u32::MAX as int
            };
            if base + v > u32::MAX {
                u32::MAX as int
            } else {
                base + v
            }
        } else {
            base + content.len()
        }
    } else {
        base
    }
}

/// Score of a code block as an example input.
pub fn example_input_heuristic(code_block: &CodeBlock) -> (score: u32)
    ensures
        score == input_score(encode_utf8(code_block.content@)),
{
    let mut score: u32 = 0;
    if code_block.multiline() {
        score += 100;
    }
    let text = code_block.content.as_str();
    assert(text.spec_bytes() == encode_utf8(code_block.content@));
    let len = text.as_bytes().len();
    assert(len == encode_utf8(code_block.content@).len());
    if len < 100 {
        score += len as u32;
    } else {
        score += 100;
    }
    score
}

/// Score of a code block as an example answer.
pub fn example_solution_heuristic(code_block: &CodeBlock) -> (score: u32)
    ensures
        score == solution_score(encode_utf8(code_block.content@), code_block.emphasized),
{
    let b = code_block.content.as_str().as_bytes();
    let mut score: u32 = 0;
    if code_block.emphasized {
        score += 100;
    }
    if b.len() < 100 {
        let mut i: usize = 0;
        let mut digits = true;
        while i < b.len()
            invariant
                i <= b@.len(),
                digits <==> forall|j: int| 0 <= j < i ==> #[trigger] is_digit(b@[j]),
            decreases b@.len() - i,
        {
            assert(is_digit(b@[i as int]) <==> !(b[i as int] < 48 || b[i as int] > 57));
            if b[i] < 48 || b[i] > 57 {
                digits = false;
            }
            i += 1;
        }
        if digits {
            let v: u32 = match crate::parse::parse_u64(b) {
                Some(n) => if n <= u32::MAX as u64 {
                    n as u32
                } else {
                    u32::MAX
                },
                None => u32::MAX,
            };
            score = score.saturating_add(v);
        } else {
            score += b.len() as u32;
        }
    }
    score
}

/// The text of a test of one part, for an example input and its expected answer.
pub open spec fn test_case_text(part: Part, input: Seq<char>, expected: Seq<char>) -> Seq<char> {
    let n = decimal(part.spec_to_int() as nat);
    "\n    #[test]\n    fn test_part"@ + n + "() {\n        let input = r#\""@ + input
        + "\"#.to_string();\n        let expected_output = r#\""@ + expected
        + "\"#.to_string();\n        let result = part"@ + n
        + "(input).unwrap();\n        assert_eq!(result, expected_output);\n    }"@
}

/// Writes the test of `part` for the example `input` and its `expected_output`.
pub fn write_test_case(part: &Part, input: &str, expected_output: &str) -> (r: String)
    ensures
        r@ == test_case_text(*part, input@, expected_output@),
{
    let n = decimal_string(part.to_int() as u64);
    let mut r = String::from_str("\n    #[test]\n    fn test_part");
    r.append(n.as_str());
    r.append("() {\n        let input = r#\"");
    r.append(input);
    r.append("\"#.to_string();\n        let expected_output = r#\"");
    r.append(expected_output);
    r.append("\"#.to_string();\n        let result = part");
    r.append(n.as_str());
    r.append("(input).unwrap();\n        assert_eq!(result, expected_output);\n    }");
    r
}

/// `content` with `case` inserted, between two newlines, before its last closing brace;
/// `None` where it has none.
pub fn insert_before_last_brace(content: &[u8], case: &[u8]) -> (r: Option<Vec<u8>>)
    ensures
        r is None <==> !content@.contains(125u8),
        r matches Some(v) ==> exists|i: int|
            0 <= i < content@.len() && content@[i] == 125 && (forall|j: int|
                i < j < content@.len() ==> content@[j] != 125) && v@ == content@.take(i)
                + seq![10u8] + case@ + seq![10u8] + content@.skip(i),
{
    match rfind_byte(content, 125) {
        None => None,
        Some(i) => {
            let mut v: Vec<u8> = Vec::new();
            let mut k: usize = 0;
            while k < i
                invariant
                    i < content@.len(),
                    k <= i,
                    v@ == content@.take(k as int),
                decreases i - k,
            {
                v.push(content[k]);
                k += 1;
                assert(v@ =~= content@.take(k as int));
            }
            v.push(10);
            let mut k: usize = 0;
            while k < case.len()
                invariant
                    k <= case@.len(),
                    v@ == content@.take(i as int) + seq![10u8] + case@.take(k as int),
                decreases case@.len() - k,
            {
                v.push(case[k]);
                k += 1;
                assert(v@ =~= content@.take(i as int) + seq![10u8] + case@.take(k as int));
            }
            v.push(10);
            let mut k: usize = i;
            assert(case@.take(case@.len() as int) =~= case@);
            let ghost head = content@.take(i as int) + seq![10u8] + case@ + seq![10u8];
            assert(v@ =~= head);
            while k < content.len()
                invariant
                    i <= k <= content@.len(),
                    v@ == head + content@.subrange(i as int, k as int),
                decreases content@.len() - k,
            {
                v.push(content[k]);
                k += 1;
                assert(v@ =~= head + content@.subrange(i as int, k as int));
            }
            assert(content@.subrange(i as int, content@.len() as int) =~= content@.skip(i as int));
            assert(content@[i as int] == 125);
            Some(v)
        },
    }
}

} // verus!
