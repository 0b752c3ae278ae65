use advent::day11::Monkey;
use advent::day11::Operation;
use advent::day11::Operator;
use advent::day11::ParseError;
use advent::day11::common_modulus;
use advent::day11::inspect_item;
use advent::day11::parse_monkey;
use advent::day11::parse_operation;
use advent::day11::play_rounds;

fn make_test_monkey() -> Monkey {
    Monkey {
        id: 0,
        items: vec![79, 98],
        operation: Operation { operator: Operator::Mult, operand: Some(19) },
        divisor: 23,
        true_dst: 2,
        false_dst: 3,
    }
}

#[test]
fn test_monkey_init() {
    let monkey = make_test_monkey();
    assert_eq!(monkey.operation.apply(monkey.items[0]), 79 * 19)
}

#[test]
fn test_monkey_add() {
    let mut monkey = make_test_monkey();
    monkey.add(7);
    assert_eq!(monkey.items, vec![79, 98, 7]);
}

#[test]
fn test_monkey_inspect_item() {
    let monkey = make_test_monkey();

    let (dst, worry_level) = inspect_item(&monkey, monkey.items[0]);
    assert_eq!(worry_level, 500);
    assert_eq!(dst, 3);

    let (dst, worry_level) = inspect_item(&monkey, monkey.items[1]);
    assert_eq!(worry_level, 620);
    assert_eq!(dst, 3);
}

#[test]
fn test_parse_monkey() {
    let monkey_str = "Monkey 0:
  Starting items: 92, 73, 86, 83, 65, 51, 55, 93
  Operation: new = old * 5
  Test: divisible by 11
    If true: throw to monkey 3
    If false: throw to monkey 4";

    let monkey = parse_monkey(monkey_str).unwrap();

    assert_eq!(monkey.items, vec![92, 73, 86, 83, 65, 51, 55, 93]);
    assert_eq!(monkey.divisor, 11);
    assert_eq!(monkey.true_dst, 3);
    assert_eq!(monkey.false_dst, 4);
}

#[test]
fn test_parse_operation() {
    let op_str = "new = old * 5";
    let f = parse_operation(op_str).unwrap();
    assert!(matches!(f.operator, Operator::Mult));
    assert_eq!(f.operand, Some(5));
    assert_eq!(f.apply(3), 15);

    let op_str = "new = old + old";
    let f = parse_operation(op_str).unwrap();
    assert!(matches!(f.operator, Operator::Add));
    assert_eq!(f.operand, None);
    assert_eq!(f.apply(3), 6);
}

#[test]
fn test_operation() {
    let operation = Operation { operator: Operator::Add, operand: Some(3) };
    assert_eq!(operation.apply(4), 7);

    let operation = Operation { operator: Operator::Mult, operand: Some(3) };
    assert_eq!(operation.apply(4), 12);

    let operation = Operation { operator: Operator::Mult, operand: None };
    assert_eq!(operation.apply(4), 16);
}

#[test]
fn parse_monkey_rejects_bad_text() {
    assert!(matches!(parse_monkey("Monkey 0:"), Err(ParseError::BadFormat)));
}

#[test]
fn common_modulus_divides_every_divisor() {
    let monkeys = vec![
        Monkey {
            id: 0,
            items: vec![],
            operation: Operation { operator: Operator::Add, operand: Some(1) },
            divisor: 4,
            true_dst: 1,
            false_dst: 1,
        },
        Monkey {
            id: 1,
            items: vec![],
            operation: Operation { operator: Operator::Add, operand: Some(1) },
            divisor: 6,
            true_dst: 0,
            false_dst: 0,
        },
    ];
    assert_eq!(common_modulus(&monkeys), Some(12));
    let empty: Vec<Monkey> = Vec::new();
    assert_eq!(common_modulus(&empty), None);
}

#[test]
fn play_rounds_moves_items_and_counts_inspections() {
    let mut monkeys = vec![
        Monkey {
            id: 0,
            items: vec![1, 2],
            operation: Operation { operator: Operator::Mult, operand: Some(1) },
            divisor: 1,
            true_dst: 1,
            false_dst: 1,
        },
        Monkey {
            id: 1,
            items: vec![],
            operation: Operation { operator: Operator::Add, operand: Some(0) },
            divisor: 1,
            true_dst: 0,
            false_dst: 0,
        },
    ];
    let counts = play_rounds(&mut monkeys, 1, 1);
    // both monkeys inspect both items within the round
    assert_eq!(counts, vec![2, 2]);
    assert_eq!(monkeys[0].items, vec![1, 1]);
    assert!(monkeys[1].items.is_empty());
}
