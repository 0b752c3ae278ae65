use advent::day01::max_total;
use advent::day01::parse_totals;
use advent::day01::top3_total;

#[test]
fn parse_totals_groups_lines() {
    let lines: Vec<String> = vec![
        "100".to_string(),
        "200".to_string(),
        "".to_string(),
        "300".to_string(),
        "".to_string(),
        "50".to_string(),
        " 60 ".to_string(),
        "".to_string(),
    ];
    let totals = parse_totals(&lines);
    assert_eq!(totals, vec![300, 300, 110]);
}

#[test]
fn parse_totals_drops_unclosed_group() {
    let lines: Vec<String> = vec!["1".to_string(), "2".to_string()];
    let totals = parse_totals(&lines);
    assert!(totals.is_empty());
}

#[test]
fn parse_totals_skips_bad_lines() {
    let lines: Vec<String> = vec!["7".to_string(), "x".to_string(), "".to_string()];
    let totals = parse_totals(&lines);
    assert_eq!(totals, vec![7]);
}

#[test]
fn max_total_picks_largest() {
    let totals = vec![4, 9, 2];
    assert_eq!(max_total(&totals), 9);
}

#[test]
fn top3_total_sums_three_largest() {
    let mut totals = vec![5, 1, 9, 7, 3];
    assert_eq!(top3_total(&mut totals), 21);
    assert_eq!(totals, vec![9, 7, 5, 3, 1]);
}
