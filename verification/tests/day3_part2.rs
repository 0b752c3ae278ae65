use advent::day3_part2::CharSet;
use advent::day3_part2::find_common_character;
use advent::day3_part2::string_to_hashset;

#[test]
fn main_test_priority() {
    assert_eq!(advent::day3_part2::priority('a'), 1);
    assert_eq!(advent::day3_part2::priority('z'), 26);
    assert_eq!(advent::day3_part2::priority('A'), 27);
    assert_eq!(advent::day3_part2::priority('Z'), 52);
}

#[test]
fn test_string_to_hashset() {
    let mut s = CharSet::new();
    s.insert('c');
    s.insert('b');

    assert_eq!(string_to_hashset(&"bcbccb"), s);
}

#[test]
fn test_find_common_character() {
    let strings: Vec<String> = vec!["s1", "s2", "s3"].into_iter().map(|x| x.to_owned()).collect();
    assert_eq!(find_common_character(&strings), 's');
}
