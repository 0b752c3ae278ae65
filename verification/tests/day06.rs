use advent::day06::find_marker;

#[test]
fn test_example1() {
    let buffer = "bvwbjplbgvbhsrlpgdmjqwftvncz";
    assert_eq!(find_marker(&buffer, 4), 5);
    assert_eq!(find_marker(&buffer, 14), 23);
}

#[test]
fn test_example2() {
    let buffer = "nppdvjthqldpwncqszvftbrmjlhg";
    assert_eq!(find_marker(&buffer, 4), 6);
    assert_eq!(find_marker(&buffer, 14), 23);
}

#[test]
fn test_example3() {
    let buffer = "nznrnfrfntjfmvfwmzdfjlvtqnbhcprsg";
    assert_eq!(find_marker(&buffer, 4), 10);
    assert_eq!(find_marker(&buffer, 14), 29);
}

#[test]
fn test_example4() {
    let buffer = "zcfzfwzzqfrljwzlrfnpqdbhtmscgvjw";
    assert_eq!(find_marker(&buffer, 4), 11);
    assert_eq!(find_marker(&buffer, 14), 26);
}

#[test]
fn find_marker_defaults_when_buffer_short() {
    assert_eq!(find_marker("ab", 4), 4);
}
