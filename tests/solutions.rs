use aor::solutions::{day_01_2024, day_01_2025, day_02_2025, day_03_2025, day_04_2025, day_05_2025, day_06_2025, day_07_2025};

#[test]
fn day_01_2024_test_part1() {
    let input = r#"3   4
4   3
2   5
1   3
3   9
3   3"#
        .to_string();
    let expected_output = r#"11"#.to_string();
    let result = day_01_2024::part1(input).unwrap();
    assert_eq!(result, expected_output);
}

#[test]
fn day_01_2024_test_part2() {
    let input = r#"3   4
4   3
2   5
1   3
3   9
3   3"#
        .to_string();
    let expected_output = r#"31"#.to_string();
    let result = day_01_2024::part2(input).unwrap();
    assert_eq!(result, expected_output);
}

#[test]
fn day_01_2025_test_part1() {
    let input = r#"L68
L30
R48
L5
R60
L55
L1
L99
R14
L82"#
        .to_string();
    let expected_output = r#"3"#.to_string();
    let result = day_01_2025::part1(input).unwrap();
    assert_eq!(result, expected_output);
}

#[test]
fn day_01_2025_test_part2() {
    let input = r#"L68
L30
R48
L5
R60
L55
L1
L99
R14
L82"#
        .to_string();
    let expected_output = r#"6"#.to_string();
    let result = day_01_2025::part2(input).unwrap();
    assert_eq!(result, expected_output);
}

#[test]
fn day_03_2025_test_part1() {
    let input = r#"987654321111111
811111111111119
234234234234278
818181911112111"#
        .to_string();
    let expected_output = r#"357"#.to_string();
    let result = day_03_2025::part1(input).unwrap();
    assert_eq!(result, expected_output);
}

#[test]
fn day_03_2025_test_part2() {
    let input = r#"987654321111111
811111111111119
234234234234278
818181911112111"#
        .to_string();
    let expected_output = r#"3121910778619"#.to_string();
    let result = day_03_2025::part2(input).unwrap();
    assert_eq!(result, expected_output);
}

#[test]
fn day_04_2025_test_part1() {
    let input = r#"..@@.@@@@.
@@@.@.@.@@
@@@@@.@.@@
@.@@@@..@.
@@.@@@@.@@
.@@@@@@@.@
.@.@.@.@@@
@.@@@.@@@@
.@@@@@@@@.
@.@.@@@.@."#
        .to_string();
    let expected_output = r#"13"#.to_string();
    let result = day_04_2025::part1(input).unwrap();
    assert_eq!(result, expected_output);
}

#[test]
fn day_04_2025_test_part2() {
    let input = r#"..@@.@@@@.
@@@.@.@.@@
@@@@@.@.@@
@.@@@@..@.
@@.@@@@.@@
.@@@@@@@.@
.@.@.@.@@@
@.@@@.@@@@
.@@@@@@@@.
@.@.@@@.@."#
        .to_string();
    let expected_output = r#"43"#.to_string();
    let result = day_04_2025::part2(input).unwrap();
    assert_eq!(result, expected_output);
}

#[test]
fn day_05_2025_test_part1() {
    let input = r#"3-5
10-14
16-20
12-18

1
5
8
11
17
32"#
        .to_string();
    let expected_output = r#"3"#.to_string();
    let result = day_05_2025::part1(input).unwrap();
    assert_eq!(result, expected_output);
}

#[test]
fn day_05_2025_test_part2() {
    let input = r#"3-5
10-14
16-20
12-18

1
5
8
11
17
32"#
        .to_string();
    let expected_output = r#"14"#.to_string();
    let result = day_05_2025::part2(input).unwrap();
    assert_eq!(result, expected_output);
}

#[test]
fn day_06_2025_test_part1() {
    let input = "123 328  51 64 \n 45 64  387 23 \n  6 98  215 314\n*   +   *   +  ".to_string();
    let expected_output = r#"4277556"#.to_string();
    let result = day_06_2025::part1(input).unwrap();
    assert_eq!(result, expected_output);
}

#[test]
fn day_06_2025_test_part2() {
    let input = "123 328  51 64 \n 45 64  387 23 \n  6 98  215 314\n*   +   *   +  ".to_string();
    let expected_output = r#"3263827"#.to_string();
    let result = day_06_2025::part2(input).unwrap();
    assert_eq!(result, expected_output);
}

#[test]
fn day_07_2025_test_part1() {
    let input = r#".......S.......
...............
.......^.......
...............
......^.^......
...............
.....^.^.^.....
...............
....^.^...^....
...............
...^.^...^.^...
...............
..^...^.....^..
...............
.^.^.^.^.^...^.
..............."#
        .to_string();
    let expected_output = r#"21"#.to_string();
    let result = day_07_2025::part1(input).unwrap();
    assert_eq!(result, expected_output);
}

#[test]
fn day_07_2025_test_part2() {
    let input = r#".......S.......
...............
.......^.......
...............
......^.^......
...............
.....^.^.^.....
...............
....^.^...^....
...............
...^.^...^.^...
...............
..^...^.....^..
...............
.^.^.^.^.^...^.
..............."#
        .to_string();
    let expected_output = r#"40"#.to_string();
    let result = day_07_2025::part2(input).unwrap();
    assert_eq!(result, expected_output);
}

#[test]
fn day_02_2025_test_part1() {
    let input = r#"11-22,95-115,998-1012,1188511880-1188511890,222220-222224,
1698522-1698528,446443-446449,38593856-38593862,565653-565659,
824824821-824824827,2121212118-2121212124"#
        .to_string();
    let expected_output = r#"1227775554"#.to_string();
    let result = day_02_2025::part1(input).unwrap();
    assert_eq!(result, expected_output);
}

#[test]
fn day_02_2025_test_part2() {
    let input = r#"11-22,95-115,998-1012,1188511880-1188511890,222220-222224,
1698522-1698528,446443-446449,38593856-38593862,565653-565659,
824824821-824824827,2121212118-2121212124"#
        .to_string();
    let expected_output = r#"4174379265"#.to_string();
    let result = day_02_2025::part2(input).unwrap();
    assert_eq!(result, expected_output);
}
