use advent::day10::CPU;
use advent::day10::Instruction;
use advent::day10::ParseError;
use advent::day10::parse_line;

#[test]
fn test_parse_line() {
    let instr = parse_line("noop".to_string());
    assert!(matches!(instr, Ok(Instruction::NoOp)));

    let instr = parse_line("addx 10".to_string());
    assert!(matches!(instr, Ok(Instruction::AddX(10))));
}

#[test]
fn parse_line_rejects_bad_lines() {
    assert!(matches!(parse_line("xyz".to_string()), Err(ParseError::UnknownOp)));
    assert!(matches!(parse_line("addx".to_string()), Err(ParseError::BadOperand)));
    assert!(matches!(parse_line("addx five".to_string()), Err(ParseError::BadOperand)));
}

#[test]
fn execute_ticks_cycles_and_updates_register() {
    let mut cpu = CPU::default();
    assert_eq!(cpu.register_x, 1);
    assert_eq!(cpu.cycle_count, 0);

    cpu.execute(Instruction::AddX(3));
    assert_eq!(cpu.cycle_count, 2);
    assert_eq!(cpu.register_x, 4);

    cpu.execute(Instruction::NoOp);
    assert_eq!(cpu.cycle_count, 3);
    assert_eq!(cpu.register_x, 4);
    assert_eq!(cpu.interesting_strength, 0);
}

#[test]
fn display_shows_sprite_overlap() {
    let mut cpu = CPU::default();
    cpu.execute(Instruction::AddX(3));
    cpu.execute(Instruction::NoOp);
    let rows = cpu.display();
    assert_eq!(rows.len(), 6);
    let first: Vec<char> = rows[0].chars().collect();
    // with the sprite at 1, columns 0 and 1 light up; after `addx 3` the
    // sprite sits at 4, two away from column 2
    assert_eq!(first[0], '#');
    assert_eq!(first[1], '#');
    assert_eq!(first[2], '.');
    assert_eq!(first[3], '_');
}

#[test]
fn interesting_cycles_accumulate_strength() {
    let mut cpu = CPU::default();
    // reach cycle 20 with a known register value
    for _ in 0..9 {
        cpu.execute(Instruction::AddX(1));
    }
    assert_eq!(cpu.cycle_count, 18);
    assert_eq!(cpu.register_x, 10);
    cpu.execute(Instruction::AddX(1));
    // cycle 20 ticks while the register still holds 10
    assert_eq!(cpu.interesting_strength, 200);
}
