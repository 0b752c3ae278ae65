use advent::day3::CharCounts;
use advent::day3::Rucksack;
use advent::day3::find_shared_key;
use advent::day3::priority;
use advent::day3::string_to_hashmap;

#[test]
fn test_string_to_hashmap() {
    let map = string_to_hashmap("ada");
    assert_eq!(map.get('a'), 2);
    assert_eq!(map.get('d'), 1);
}

#[test]
fn test_priority() {
    assert_eq!(priority('a'), 1);
    assert_eq!(priority('z'), 26);
    assert_eq!(priority('A'), 27);
    assert_eq!(priority('Z'), 52);
}

#[test]
fn test_find_shared_key() {
    let mut m1 = CharCounts::new();
    m1.insert('a', 1);
    m1.insert('b', 1);

    let mut m2 = CharCounts::new();
    m2.insert('c', 1);
    m2.insert('b', 1);

    let shared_key = find_shared_key(&m1, &m2);
    assert_eq!(shared_key, Some('b'));
}

#[test]
fn test_rucksack_from_contents() {
    let rucksack = Rucksack::from_contents("ABABDEAB");

    assert_eq!(rucksack.compartment1.get('A'), 2);
    assert_eq!(rucksack.compartment1.get('B'), 2);
    assert_eq!(rucksack.compartment2.get('A'), 1);
    assert_eq!(rucksack.compartment2.get('D'), 1);
}

#[test]
fn find_shared_key_reports_none_when_disjoint() {
    let mut m1 = CharCounts::new();
    m1.insert('a', 1);
    let mut m2 = CharCounts::new();
    m2.insert('b', 1);
    assert_eq!(find_shared_key(&m1, &m2), None);
}
