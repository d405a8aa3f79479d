use advent_solvers::get_input_lines;

#[test]
fn lines_are_split_at_line_endings() {
    assert_eq!(get_input_lines("a\nb\r\n\nc"), vec!["a", "b", "", "c"]);
    assert_eq!(get_input_lines("a\n"), vec!["a"]);
    assert_eq!(get_input_lines("a\n\n"), vec!["a", ""]);
    assert_eq!(get_input_lines("a\r"), vec!["a\r"]);
    assert_eq!(get_input_lines(""), Vec::<String>::new());
    assert_eq!(get_input_lines("\n"), vec![""]);
    assert_eq!(get_input_lines("héllo\nwörld"), vec!["héllo", "wörld"]);
}
