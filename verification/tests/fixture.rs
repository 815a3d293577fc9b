use tree_playground::avl::AvlSet;
use tree_playground::fixture::{join_numbers, parse_numbers};
use tree_playground::Tree;

fn by_std(line: &str) -> Vec<i64> {
    line.split(' ').filter_map(|x| x.parse::<i64>().ok()).collect()
}

#[test]
fn parse_numbers_reads_what_stands_between_spaces() {
    assert_eq!(parse_numbers("42 15 23 55"), vec![42, 15, 23, 55]);
    assert_eq!(parse_numbers(""), Vec::<i64>::new());
    assert_eq!(parse_numbers(" "), Vec::<i64>::new());
    assert_eq!(parse_numbers("7"), vec![7]);
    assert_eq!(parse_numbers(" 7  8 "), vec![7, 8]);
    assert_eq!(parse_numbers("-3 +4 0 -0 +0 007"), vec![-3, 4, 0, 0, 0, 7]);
}

#[test]
fn parse_numbers_passes_over_what_is_no_integer() {
    assert_eq!(parse_numbers("1 x 2"), vec![1, 2]);
    assert_eq!(parse_numbers("+ - ++1 --1 +-1 1- 1+ 1.0 1e3 0x10 ٣"), Vec::<i64>::new());
    assert_eq!(parse_numbers("1\t2 3\n"), Vec::<i64>::new());
    assert_eq!(parse_numbers("1,2 3"), vec![3]);
}

#[test]
fn parse_numbers_keeps_to_the_range() {
    assert_eq!(
        parse_numbers("9223372036854775807 -9223372036854775808"),
        vec![i64::MAX, i64::MIN]
    );
    assert_eq!(
        parse_numbers("9223372036854775808 -9223372036854775809 99999999999999999999999999 5"),
        vec![5]
    );
    assert_eq!(
        parse_numbers("+9223372036854775807 0000000000000000000000009223372036854775807"),
        vec![i64::MAX, i64::MAX]
    );
    assert_eq!(parse_numbers("-00000000000000000000009223372036854775808"), vec![i64::MIN]);
    assert_eq!(parse_numbers("340282366920938463463374607431768211456"), Vec::<i64>::new());
}

#[test]
fn parse_numbers_agrees_with_the_standard_parser() {
    let lines = [
        "",
        "  ",
        "1 2 3",
        "-1 -2 +3 x 4- +",
        "9223372036854775807 9223372036854775808 -9223372036854775808 -9223372036854775809",
        "18446744073709551616 18446744073709551615 92233720368547758070",
        "00 -00 +00 0- é 12é 1 ",
        "10 9 8 7 6 5 4 3 2 1 0 -1 -2",
    ];
    for line in lines {
        assert_eq!(parse_numbers(line), by_std(line), "line {line:?}");
    }
}

#[test]
fn join_numbers_writes_decimal_with_single_spaces() {
    assert_eq!(join_numbers(&vec![]), "");
    assert_eq!(join_numbers(&vec![0]), "0");
    assert_eq!(join_numbers(&vec![15, 23, 42, 55]), "15 23 42 55");
    assert_eq!(join_numbers(&vec![-1, 0, 10, 100, -1000]), "-1 0 10 100 -1000");
    assert_eq!(
        join_numbers(&vec![i64::MIN, i64::MAX]),
        "-9223372036854775808 9223372036854775807"
    );
}

#[test]
fn join_numbers_agrees_with_the_standard_writer() {
    let values = vec![i64::MIN, -987654321, -10, -9, -1, 0, 1, 9, 10, 99, 100, 101, i64::MAX];
    let expect = values.iter().map(|x| x.to_string()).collect::<Vec<String>>().join(" ");
    assert_eq!(join_numbers(&values), expect);
}

#[test]
fn a_fixture_is_answered_with_the_sorted_line() {
    let input = "5\n42 15 23 55 15";
    let data: Vec<&str> = input.lines().collect();
    let mut tree = AvlSet::default();
    for number in parse_numbers(data[1]) {
        tree.insert(number);
    }
    assert_eq!(join_numbers(&tree.iter().collect()), "15 23 42 55");
}
