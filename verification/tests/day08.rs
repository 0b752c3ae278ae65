use advent::day08::line_to_values;
use advent::day08::part1;
use advent::day08::part2;
use advent::day08::viewing_dist;

#[test]
fn test_viewing_dist() {
    let others = vec![4, 5, 3];
    assert_eq!(viewing_dist(2, &others), 1);
    assert_eq!(viewing_dist(4, &others), 1);
    assert_eq!(viewing_dist(5, &others), 2);
    assert_eq!(viewing_dist(6, &others), 3);
}

#[test]
fn line_to_values_reads_digits() {
    assert_eq!(line_to_values("30373".to_string()), vec![3, 0, 3, 7, 3]);
    assert_eq!(line_to_values("".to_string()), Vec::<u32>::new());
}

fn example_grid() -> Vec<Vec<u32>> {
    vec![
        vec![3, 0, 3, 7, 3],
        vec![2, 5, 5, 1, 2],
        vec![6, 5, 3, 3, 2],
        vec![3, 3, 5, 4, 9],
        vec![3, 5, 3, 9, 0],
    ]
}

#[test]
fn part1_counts_visible_trees() {
    assert_eq!(part1(example_grid()), 21);
}

#[test]
fn part2_finds_best_scenic_score() {
    assert_eq!(part2(example_grid()), 8);
}
