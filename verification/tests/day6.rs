use advent::day6::find_marker;

#[test]
fn lib_test_example1() {
    let buffer = "bvwbjplbgvbhsrlpgdmjqwftvncz";
    assert_eq!(find_marker(&buffer), 5);
}

#[test]
fn lib_test_example2() {
    let buffer = "nppdvjthqldpwncqszvftbrmjlhg";
    assert_eq!(find_marker(&buffer), 6);
}

#[test]
fn lib_test_example3() {
    let buffer = "nznrnfrfntjfmvfwmzdfjlvtqnbhcprsg";
    assert_eq!(find_marker(&buffer), 10);
}

#[test]
fn lib_test_example4() {
    let buffer = "zcfzfwzzqfrljwzlrfnpqdbhtmscgvjw";
    assert_eq!(find_marker(&buffer), 11);
}
