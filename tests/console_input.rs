use msweeper::board::Board;
use msweeper::console_input::{parse_command, Command, ConsoleInput};

#[test]
fn commands_are_parsed_from_one() {
    assert_eq!(parse_command("s 2 3"), Some(Command::Show(1, 2)));
    assert_eq!(parse_command("m 1 1"), Some(Command::Mark(0, 0)));
    assert_eq!(parse_command("s 16 9 and more"), Some(Command::Show(15, 8)));
    assert_eq!(parse_command("m 4294967295 1"), Some(Command::Mark(4294967294, 0)));
}

#[test]
fn malformed_commands_are_none() {
    assert_eq!(parse_command(""), None);
    assert_eq!(parse_command("s"), None);
    assert_eq!(parse_command("s 2"), None);
    assert_eq!(parse_command("x 2 3"), None);
    assert_eq!(parse_command("show 2 3"), None);
    assert_eq!(parse_command("s 0 3"), None);
    assert_eq!(parse_command("s a 3"), None);
    assert_eq!(parse_command("s 2  3"), None);
    assert_eq!(parse_command("s -2 3"), None);
    assert_eq!(parse_command("s 4294967296 3"), None);
    assert_eq!(parse_command("s 99999999999999999999 3"), None);
}

#[test]
fn console_input_acts_on_the_board() {
    let mut board = Board::new(1).unwrap();
    board.console_input("m 2 3");
    assert!(board.square(1, 2).is_marked());
    assert_eq!(board.mines_left(), 9);
    board.console_input("s 5 5");
    assert!(!board.square(4, 4).is_hidden());
    assert!(!board.square(4, 4).is_mine());
    board.console_input("s 0 0");
    board.console_input("nonsense");
    assert!(!board.defeat());
}
