use aor::event_date::EventDate;
use aor::parse::{ints, parse_i64, parse_u64, uints};
use aor::problem::{html_unescape, part_two_unlocked, unlocked_parts, CodeBlock};
use aor::solutions::{day_01_2025, day_02_2025, day_03_2025, day_04_2025, day_05_2025, day_06_2025, day_07_2025};
use aor::solution::{bin_name, solution_path, ExecResult, InputError, Part, ReportError};
use aor::sorting::{sort_pairs, sort_values};
use aor::testgen::{
    example_input_heuristic, example_solution_heuristic, insert_before_last_brace,
    write_test_case,
};
use aor::text::{find_bytes, lines, rfind_byte, split_lines};
use aor::util::counts;

#[test]
fn numbers_in_text() {
    assert_eq!(uints("a12b 7,,003 x"), vec![12, 7, 3]);
    assert_eq!(uints("99999999999999999999 5"), vec![5]);
    assert_eq!(uints(""), Vec::<u64>::new());
    assert_eq!(ints("-3 4-5 --2 -"), vec![-3]);
    assert_eq!(ints("x-9223372036854775808y 12"), vec![i64::MIN, 12]);
    assert_eq!(parse_u64(b"0042"), Some(42));
    assert_eq!(parse_u64(b""), None);
    assert_eq!(parse_u64(b"18446744073709551615"), Some(u64::MAX));
    assert_eq!(parse_u64(b"18446744073709551616"), None);
    assert_eq!(parse_i64(b"-17"), Some(-17));
    assert_eq!(parse_i64(b"9223372036854775808"), None);
}

#[test]
fn splitting_lines() {
    let ls = split_lines(b"ab\n\nc", b'\n');
    assert_eq!(ls, vec![b"ab".to_vec(), vec![], b"c".to_vec()]);
    assert_eq!(split_lines(b"", b'\n'), vec![Vec::<u8>::new()]);
    assert_eq!(lines(b"x\ny\n"), vec![b"x".to_vec(), b"y".to_vec()]);
    assert_eq!(lines(b""), Vec::<Vec<u8>>::new());
    assert_eq!(find_bytes(b"abcabc", b"ca"), Some(2));
    assert_eq!(find_bytes(b"abc", b"cd"), None);
    assert_eq!(rfind_byte(b"a}b}c", b'}'), Some(3));
    assert_eq!(rfind_byte(b"abc", b'}'), None);
}

#[test]
fn counting_values() {
    let m = counts(&[3, 4, 3, 9, 3]);
    assert_eq!(m.get(&3), Some(&3));
    assert_eq!(m.get(&4), Some(&1));
    assert_eq!(m.get(&5), None);
    assert_eq!(m.len(), 3);
}

#[test]
fn sorting_values_and_pairs() {
    assert_eq!(sort_values(vec![5, 1, 4, 1]), vec![1, 1, 4, 5]);
    assert_eq!(sort_pairs(vec![(3, 1), (1, 9), (3, 0)]), vec![(1, 9), (3, 0), (3, 1)]);
}

#[test]
fn names_and_paths() {
    let d = EventDate { day: 4, year: 2025 };
    assert_eq!(bin_name(&d), "day_04_2025");
    assert_eq!(solution_path(&d), "src/solutions/day_04_2025.rs");
    let d = EventDate { day: 17, year: 2024 };
    assert_eq!(bin_name(&d), "day_17_2024");
}

#[test]
fn event_dates() {
    assert_eq!(EventDate::for_today(2025, 12, 9), EventDate { day: 9, year: 2025 });
    assert_eq!(EventDate::for_today(2025, 7, 9), EventDate { day: 1, year: 2025 });
    let base = EventDate { day: 1, year: 2025 };
    assert_eq!(EventDate::default_or(base, Some(5), None), EventDate { day: 5, year: 2025 });
    assert_eq!(EventDate::default_or(base, None, Some(2020)), EventDate { day: 1, year: 2020 });
}

#[test]
fn parts() {
    assert_eq!(Part::One.to_int(), 1);
    assert_eq!(Part::Two.to_int(), 2);
    assert_eq!(Part::parse("2"), Some(Part::Two));
    assert_eq!(Part::parse("1"), Some(Part::One));
    assert_eq!(Part::parse("3"), None);
    assert_eq!(Part::parse("12"), None);
}

#[test]
fn problem_pages() {
    assert!(part_two_unlocked("<h2>--- Part Two ---</h2>"));
    assert!(!part_two_unlocked("<h2>--- Part One ---</h2>"));
    assert_eq!(unlocked_parts("x --- Part Two --- y"), vec![Part::One, Part::Two]);
    assert_eq!(unlocked_parts(""), vec![Part::One]);
    assert_eq!(html_unescape("&lt;a&gt; &amp;lt; &quot;q&quot; &#39;"), "<a> &lt; \"q\" '");
    assert_eq!(html_unescape("&amp;quot;"), "\"");
    let block = CodeBlock { content: "1\n2".to_string(), emphasized: false };
    assert!(block.multiline());
    let block = CodeBlock { content: "12".to_string(), emphasized: true };
    assert!(!block.multiline());
}

#[test]
fn code_block_scores() {
    let multi = CodeBlock { content: "ab\ncd".to_string(), emphasized: false };
    assert_eq!(example_input_heuristic(&multi), 105);
    let long = CodeBlock { content: "x".repeat(150), emphasized: false };
    assert_eq!(example_input_heuristic(&long), 100);
    let answer = CodeBlock { content: "42".to_string(), emphasized: true };
    assert_eq!(example_solution_heuristic(&answer), 142);
    let word = CodeBlock { content: "abc".to_string(), emphasized: false };
    assert_eq!(example_solution_heuristic(&word), 3);
    let empty = CodeBlock { content: String::new(), emphasized: true };
    assert_eq!(example_solution_heuristic(&empty), u32::MAX);
    let huge = CodeBlock { content: "99999999999".to_string(), emphasized: false };
    assert_eq!(example_solution_heuristic(&huge), u32::MAX);
}

#[test]
fn generated_tests() {
    let t = write_test_case(&Part::Two, "in", "out");
    assert!(t.contains("fn test_part2()"));
    assert!(t.contains("let input = r#\"in\"#.to_string();"));
    assert!(t.contains("let result = part2(input).unwrap();"));
    let v = insert_before_last_brace(b"mod t {\n}\n", b"X").unwrap();
    assert_eq!(v, b"mod t {\n\nX\n}\n".to_vec());
    assert_eq!(insert_before_last_brace(b"none", b"X"), None);
}

#[test]
fn malformed_and_oversized_inputs() {
    assert_eq!(day_01_2025::part1("L1\nX".to_string()), Err(InputError::Malformed));
    assert_eq!(day_01_2025::part2("R\n".to_string()), Err(InputError::Malformed));
    assert_eq!(day_01_2025::part2("R50\nL100\n".to_string()).unwrap(), "2");
    assert_eq!(day_03_2025::part1("9".to_string()), Err(InputError::Malformed));
    assert_eq!(day_03_2025::part1("12a".to_string()), Err(InputError::Malformed));
    assert_eq!(day_04_2025::part1("@@@".to_string()), Err(InputError::Malformed));
    assert_eq!(day_05_2025::part1("1-2\n3".to_string()), Err(InputError::Malformed));
    assert_eq!(day_05_2025::part2("5-3\n\n1".to_string()), Err(InputError::Malformed));
    assert_eq!(
        day_05_2025::part2("0-18446744073709551615\n\n1".to_string()),
        Err(InputError::TooLarge)
    );
    assert_eq!(day_06_2025::part1("1 2\n- +".to_string()), Err(InputError::Malformed));
    assert_eq!(
        day_06_2025::part1("18446744073709551615\n1\n+".to_string()),
        Err(InputError::TooLarge)
    );
    assert_eq!(day_06_2025::part1("0 5\n99999999999999999999 5\n* +".to_string()), Err(InputError::TooLarge));
    assert_eq!(day_06_2025::part1("0\n7\n*".to_string()).unwrap(), "0");
    assert_eq!(day_07_2025::part1("...\n.^.".to_string()), Err(InputError::Malformed));
    assert_eq!(day_02_2025::part1("1-x".to_string()), Err(InputError::Malformed));
    assert_eq!(day_02_2025::part1("12".to_string()), Err(InputError::Malformed));
    assert_eq!(day_02_2025::part1(" 10-30 , 25-34\n".to_string()).unwrap(), "66");
    assert_eq!(day_02_2025::part2("10-30,25-34,100-112".to_string()).unwrap(), "177");
    assert_eq!(day_07_2025::part1(".S.\n^..".to_string()), Err(InputError::Malformed));
    assert_eq!(day_07_2025::part2(".S..\n.^^.".to_string()), Err(InputError::Malformed));
    assert_eq!(day_07_2025::part2("..S..\n..^..\n.....".to_string()).unwrap(), "2");
    assert_eq!(day_07_2025::part1("..S..\n..^..\n.....".to_string()).unwrap(), "1");
}

#[test]
fn run_reports() {
    let r = ExecResult::parse("  42\n", "log\nDuration: 1s, 250ns\nDuration: 9s, 9ns");
    match r {
        Ok(ExecResult::Complete { answer, duration_secs, duration_subsec_ns }) => {
            assert_eq!(answer, "42");
            assert_eq!(duration_secs, 1);
            assert_eq!(duration_subsec_ns, 250);
        }
        _ => panic!("expected a completed run"),
    }
    assert!(matches!(ExecResult::parse("x", "Duration: s, 1ns"), Err(ReportError::MissingDuration)));
    assert!(matches!(ExecResult::parse("x", ""), Err(ReportError::MissingDuration)));
    assert!(matches!(
        ExecResult::parse("x", "Duration: 1s, 99999999999ns"),
        Err(ReportError::BadNumber)
    ));
}
