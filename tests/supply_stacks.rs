use advent_solvers::supply_stacks::{
    get_stack_tops, get_stack_tops_with_cratemover_9001, Movement, Stack, StackError,
};

fn lines(text: &[&str]) -> Vec<String> {
    text.iter().map(|l| l.to_string()).collect()
}

fn example() -> Vec<String> {
    lines(&[
        "    [D]    ",
        "[N] [C]    ",
        "[Z] [M] [P]",
        " 1   2   3 ",
        "",
        "move 1 from 2 to 1",
        "move 3 from 1 to 3",
        "move 2 from 2 to 1",
        "move 1 from 1 to 2",
    ])
}

fn diagram_only() -> Vec<String> {
    lines(&["    [D]    ", "[N] [C]    ", "[Z] [M] [P]", " 1   2   3 "])
}

fn crates(stack: &Stack, tag: &str) -> Vec<char> {
    stack.crates_of(&tag.to_string()).expect("declared stack")
}

fn moves(text: &[&str]) -> Vec<Movement> {
    text.iter().map(|l| Movement::new(l).expect("valid move line")).collect()
}

#[test]
fn diagram_is_read_bottom_first() {
    let stack = Stack::new(&diagram_only()).unwrap();
    assert_eq!(crates(&stack, "1"), vec!['Z', 'N']);
    assert_eq!(crates(&stack, "2"), vec!['M', 'C', 'D']);
    assert_eq!(crates(&stack, "3"), vec!['P']);
    assert_eq!(stack.top_boxes(), "NDP");
    assert!(stack.crates_of(&"4".to_string()).is_none());
}

#[test]
fn example_single_crate_crane() {
    assert_eq!(get_stack_tops(&example()).unwrap(), "CMZ");
}

#[test]
fn example_block_crane() {
    assert_eq!(get_stack_tops_with_cratemover_9001(&example()).unwrap(), "MCD");
}

#[test]
fn single_crate_crane_reverses_a_block() {
    let mut stack = Stack::new(&diagram_only()).unwrap();
    let r = stack.move_boxes(&moves(&["move 3 from 2 to 3"])).unwrap();
    assert_eq!(crates(&stack, "2"), Vec::<char>::new());
    assert_eq!(crates(&stack, "3"), vec!['P', 'D', 'C', 'M']);
    assert_eq!(r, "NM");
}

#[test]
fn block_crane_keeps_a_block_in_order() {
    let mut stack = Stack::new(&diagram_only()).unwrap();
    let r = stack
        .move_boxes_with_cratemover_9001(&moves(&["move 3 from 2 to 3"]))
        .unwrap();
    assert_eq!(crates(&stack, "2"), Vec::<char>::new());
    assert_eq!(crates(&stack, "3"), vec!['P', 'M', 'C', 'D']);
    assert_eq!(r, "ND");
}

#[test]
fn single_crate_crane_on_one_stack_reverses_its_top() {
    let mut stack = Stack::new(&diagram_only()).unwrap();
    stack.move_boxes(&moves(&["move 2 from 2 to 2"])).unwrap();
    assert_eq!(crates(&stack, "2"), vec!['M', 'D', 'C']);
}

#[test]
fn zero_crate_move_changes_nothing() {
    let mut stack = Stack::new(&diagram_only()).unwrap();
    let r = stack.move_boxes(&moves(&["move 0 from 1 to 2"])).unwrap();
    assert_eq!(r, "NDP");
    assert_eq!(crates(&stack, "1"), vec!['Z', 'N']);
    assert_eq!(crates(&stack, "2"), vec!['M', 'C', 'D']);
    assert_eq!(crates(&stack, "3"), vec!['P']);
}

#[test]
fn move_takes_only_the_crates_present() {
    for block in [false, true] {
        let mut stack = Stack::new(&diagram_only()).unwrap();
        let m = moves(&["move 5 from 3 to 1"]);
        let r = if block {
            stack.move_boxes_with_cratemover_9001(&m)
        } else {
            stack.move_boxes(&m)
        };
        assert_eq!(r.unwrap(), "PD");
        assert_eq!(crates(&stack, "3"), Vec::<char>::new());
        assert_eq!(crates(&stack, "1"), vec!['Z', 'N', 'P']);
    }
}

#[test]
fn unknown_destination_restores_the_origin() {
    for block in [false, true] {
        let mut stack = Stack::new(&diagram_only()).unwrap();
        let m = moves(&["move 2 from 2 to 9"]);
        let r = if block {
            stack.move_boxes_with_cratemover_9001(&m)
        } else {
            stack.move_boxes(&m)
        };
        match r {
            Err(StackError::UnknownStack(name)) => assert_eq!(name, "9"),
            other => panic!("unexpected result {:?}", other),
        }
        assert_eq!(crates(&stack, "1"), vec!['Z', 'N']);
        assert_eq!(crates(&stack, "2"), vec!['M', 'C', 'D']);
        assert_eq!(crates(&stack, "3"), vec!['P']);
    }
}

#[test]
fn unknown_origin_is_reported() {
    let mut stack = Stack::new(&diagram_only()).unwrap();
    match stack.move_boxes(&moves(&["move 1 from 7 to 9"])) {
        Err(StackError::UnknownStack(name)) => assert_eq!(name, "7"),
        other => panic!("unexpected result {:?}", other),
    }
}

#[test]
fn moves_before_a_failing_one_stay_made() {
    let mut stack = Stack::new(&diagram_only()).unwrap();
    let r = stack.move_boxes(&moves(&["move 1 from 2 to 1", "move 1 from 1 to 9", "move 1 from 3 to 1"]));
    assert!(matches!(r, Err(StackError::UnknownStack(_))));
    assert_eq!(crates(&stack, "1"), vec!['Z', 'N', 'D']);
    assert_eq!(crates(&stack, "3"), vec!['P']);
}

#[test]
fn unknown_destination_in_a_whole_input() {
    let mut input = diagram_only();
    input.push(String::new());
    input.push("move 1 from 1 to 9".to_string());
    match get_stack_tops(&input) {
        Err(StackError::UnknownStack(name)) => assert_eq!(name, "9"),
        other => panic!("unexpected result {:?}", other),
    }
}

#[test]
fn readout_follows_declaration_order_and_skips_empty_stacks() {
    let input = lines(&["[A]     [C]", " 1   2   3 ", "", "move 1 from 3 to 2"]);
    assert_eq!(get_stack_tops(&input).unwrap(), "AC");
    let input = lines(&["[A]     [C]", " 1   2   3 "]);
    assert_eq!(get_stack_tops(&input).unwrap(), "AC");
    let input = lines(&["[A] [B] [C]", " 3   1   2 "]);
    assert_eq!(get_stack_tops(&input).unwrap(), "ABC");
    let input = lines(&["[A] [B] [C]", " 3   1   2 ", "", "move 1 from 3 to 1"]);
    assert_eq!(get_stack_tops(&input).unwrap(), "AC");
}

#[test]
fn missing_header() {
    let input = lines(&["[A] [B]", "", "move 1 from 1 to 2"]);
    assert!(matches!(get_stack_tops(&input), Err(StackError::MissingHeader)));
    assert!(matches!(
        get_stack_tops_with_cratemover_9001(&input),
        Err(StackError::MissingHeader)
    ));
    assert!(matches!(Stack::new(&[]), Err(StackError::MissingHeader)));
}

#[test]
fn short_diagram_row() {
    let input = lines(&["[A] [B]", "[C]", " 1   2 "]);
    match Stack::new(&input) {
        Err(StackError::IndexOutOfBounds { row, stack }) => {
            assert_eq!(row, 1);
            assert_eq!(stack, 1);
        }
        other => panic!("unexpected result {:?}", other.map(|s| s.top_boxes())),
    }
}

#[test]
fn malformed_move_line() {
    match Movement::new("move 1 form 2 to 3") {
        Err(StackError::MalformedInstruction(l)) => assert_eq!(l, "move 1 form 2 to 3"),
        _ => panic!("expected a malformed instruction"),
    }
    assert!(matches!(
        Movement::new("move 1 from 2 to"),
        Err(StackError::MalformedInstruction(_))
    ));
    assert!(matches!(
        Movement::new("move 1 from 2 to 3 now"),
        Err(StackError::MalformedInstruction(_))
    ));
}

#[test]
fn bad_move_count() {
    match Movement::new("move x from 2 to 3") {
        Err(StackError::NumberFormat(t)) => assert_eq!(t, "x"),
        _ => panic!("expected a number format error"),
    }
    assert!(matches!(
        Movement::new("move -1 from 2 to 3"),
        Err(StackError::NumberFormat(_))
    ));
    assert!(matches!(
        Movement::new("move 2147483648 from 2 to 3"),
        Err(StackError::NumberFormat(_))
    ));
    let input = lines(&["[A] [B]", " 1   2 ", "", "move two from 1 to 2"]);
    assert!(matches!(get_stack_tops(&input), Err(StackError::NumberFormat(_))));
}

#[test]
fn move_line_fields() {
    let m = Movement::new("  move 12 from a to  bb ").unwrap();
    assert_eq!(m.number_of_crates, 12);
    assert_eq!(m.origin_stack, "a");
    assert_eq!(m.destination_stack, "bb");
    let m = Movement::new("move +7 from 1 to 2").unwrap();
    assert_eq!(m.number_of_crates, 7);
}

#[test]
fn any_line_holding_move_is_read_as_a_move() {
    let mut input = diagram_only();
    input.push(String::new());
    input.push("moves 1 from 2 to 3".to_string());
    match get_stack_tops(&input) {
        Err(StackError::MalformedInstruction(l)) => assert_eq!(l, "moves 1 from 2 to 3"),
        other => panic!("unexpected result {:?}", other),
    }
    let mut input = diagram_only();
    input.push("the crane moved".to_string());
    assert!(matches!(
        get_stack_tops_with_cratemover_9001(&input),
        Err(StackError::MalformedInstruction(_))
    ));
}

#[test]
fn lines_without_move_are_not_moves() {
    let mut input = diagram_only();
    input.push(String::new());
    input.push("mov 1 from 2 to 3".to_string());
    input.push("move 1 from 2 to 1".to_string());
    assert_eq!(get_stack_tops(&input).unwrap(), "DCP");
}
