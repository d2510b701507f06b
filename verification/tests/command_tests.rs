use minesweeper::command::{BoardCommand, BoardCommandError};
use minesweeper::config::{GameConfiguration, GameConfigurationError};
use minesweeper::grid::Coordinate;
use minesweeper::text::NumberError;
use minesweeper::welcome_msg;

#[test]
fn create_command_test() {
    let command = "pass";
    assert_eq!(BoardCommand::Pass, BoardCommand::try_from(command).unwrap());

    let command = "quit";
    assert_eq!(BoardCommand::Quit, BoardCommand::try_from(command).unwrap());

    let command = "clear(0, 0)";
    assert_eq!(
        BoardCommand::ClearMark(Coordinate(0, 0)),
        BoardCommand::try_from(command).unwrap()
    );

    let command = "note(2,1)";
    assert_eq!(
        BoardCommand::SetMarkNote(Coordinate(2, 1)),
        BoardCommand::try_from(command).unwrap()
    );

    let command = "flag(100, 21)";
    assert_eq!(
        BoardCommand::SetMarkFlag(Coordinate(100, 21)),
        BoardCommand::try_from(command).unwrap()
    );

    let command = "explore(20, 20)";
    assert_eq!(
        BoardCommand::Explore(Coordinate(20, 20)),
        BoardCommand::try_from(command).unwrap()
    );
}

#[test]
fn fail_to_create_command_test() {
    let command = "asd";
    let result: Result<BoardCommand, BoardCommandError> = BoardCommand::try_from(command);
    assert_eq!(Err(BoardCommandError::MalformedString), result);

    let command = "mark(10,10,10)";
    let result: Result<BoardCommand, BoardCommandError> = BoardCommand::try_from(command);
    if let Err(BoardCommandError::CoordinateParsing(_)) = result {
        assert!(true);
    } else {
        assert!(false);
    }

    let command = "mark(10.10)";
    let result: Result<BoardCommand, BoardCommandError> = BoardCommand::try_from(command);
    assert_eq!(Err(BoardCommandError::MalformedCoordinate), result);

    let command = "flag(1000_000, 10)";
    let result: Result<BoardCommand, BoardCommandError> = BoardCommand::try_from(command);
    if let Err(BoardCommandError::CoordinateParsing(_)) = result {
        assert!(true);
    } else {
        assert!(false);
    }

    let command = "flag((1000, 20))";
    let result: Result<BoardCommand, BoardCommandError> = BoardCommand::try_from(command);
    if let Err(BoardCommandError::CoordinateParsing(_)) = result {
        assert!(true);
    } else {
        assert!(false);
    }

    let command = "test(10, 10)";
    let result: Result<BoardCommand, BoardCommandError> = BoardCommand::try_from(command);
    assert_eq!(Err(BoardCommandError::NotFound), result);
}

#[test]
fn command_parsing_is_case_insensitive_and_trims() {
    assert_eq!(BoardCommand::Pass, BoardCommand::try_from("  PASS \n").unwrap());
    assert_eq!(BoardCommand::Quit, BoardCommand::try_from("\tQuit\r\n").unwrap());
    assert_eq!(
        BoardCommand::ClearMark(Coordinate(1, 2)),
        BoardCommand::try_from("CLEAR(1, 2)\n").unwrap()
    );
    assert_eq!(
        BoardCommand::Explore(Coordinate(0, 9)),
        BoardCommand::try_from("Explore( 0,9 )").unwrap()
    );
}

#[test]
fn command_parsing_ignores_unicode_whitespace() {
    assert_eq!(
        BoardCommand::Pass,
        BoardCommand::try_from("\u{a0}pass\u{a0}").unwrap()
    );
    assert_eq!(
        BoardCommand::SetMarkNote(Coordinate(4, 2)),
        BoardCommand::try_from("\u{2003}note(\u{a0}4, 2)\u{85}").unwrap()
    );
}

#[test]
fn command_numeric_error_kinds() {
    // empty first field
    assert_eq!(
        Err(BoardCommandError::CoordinateParsing(NumberError::Empty)),
        BoardCommand::try_from("flag(, 10)")
    );
    // non-digit in the first field
    assert_eq!(
        Err(BoardCommandError::CoordinateParsing(NumberError::InvalidDigit)),
        BoardCommand::try_from("flag(a, 10)")
    );
    // too large for a 16-bit coordinate
    assert_eq!(
        Err(BoardCommandError::CoordinateParsing(NumberError::PosOverflow)),
        BoardCommand::try_from("flag(1000000, 10)")
    );
    // 65535 is the largest accepted coordinate
    assert_eq!(
        BoardCommand::SetMarkFlag(Coordinate(65535, 0)),
        BoardCommand::try_from("flag(65535, 0)").unwrap()
    );
    assert_eq!(
        Err(BoardCommandError::CoordinateParsing(NumberError::PosOverflow)),
        BoardCommand::try_from("flag(65536, 0)")
    );
}

#[test]
fn config_parsing_reads_side_and_mines() {
    let config = GameConfiguration::try_from("10 10\n").unwrap();
    assert_eq!(10, config.w());
    assert_eq!(10, config.h());
    assert_eq!(10, config.mines());

    let config = GameConfiguration::try_from("7 3").unwrap();
    assert_eq!(7, config.w());
    assert_eq!(7, config.h());
    assert_eq!(3, config.mines());
}

#[test]
fn config_parsing_failures() {
    assert_eq!(
        Err(GameConfigurationError::MalformedString),
        GameConfiguration::try_from("1010")
    );
    assert_eq!(
        Err(GameConfigurationError::MalformedInteger(NumberError::InvalidDigit)),
        GameConfiguration::try_from("a 10")
    );
    assert_eq!(
        Err(GameConfigurationError::MalformedInteger(NumberError::PosOverflow)),
        GameConfiguration::try_from("70000 10")
    );
    assert_eq!(
        Err(GameConfigurationError::MalformedInteger(NumberError::Empty)),
        GameConfiguration::try_from(" 10")
    );
}

#[test]
fn default_configuration_is_five_by_five_with_ten_mines() {
    let config = GameConfiguration::default();
    assert_eq!(5, config.w());
    assert_eq!(5, config.h());
    assert_eq!(10, config.mines());
}

#[test]
fn welcome_msg_text() {
    assert_eq!(
        "Welcome to minesweeper\nKeymaps:\nplay-1,\nhighscores-2,\nquit-3",
        welcome_msg()
    );
}
