use rustversi::board::{Board, ParsingError, Player, Square};

fn parse(s: &str) -> Result<Board, ParsingError> {
    Board::parse(s.as_bytes())
}

/// The opening position of side `n` in canonical text form.
fn start_rows(n: usize) -> Vec<String> {
    let h = n / 2;
    (0..n)
        .map(|y| {
            (0..n)
                .map(|x| {
                    if (x, y) == (h - 1, h - 1) || (x, y) == (h, h) {
                        'O'
                    } else if (x, y) == (h, h - 1) || (x, y) == (h - 1, h) {
                        'X'
                    } else {
                        '_'
                    }
                })
                .collect()
        })
        .collect()
}

fn start_text(n: usize) -> String {
    let mut s = String::from("X\n");
    for r in start_rows(n) {
        s.push_str(&r);
        s.push('\n');
    }
    s
}

fn blank_text(n: usize) -> String {
    let mut s = String::from("X\n");
    for _ in 0..n {
        s.push_str(&"_".repeat(n));
        s.push('\n');
    }
    s
}

#[test]
fn board_0x0_fail() {
    assert_eq!(parse("X\n"), Err(ParsingError::BadSize));
}

#[test]
fn board_1x1_fail() {
    assert_eq!(parse(&blank_text(1)), Err(ParsingError::BadSize));
}

#[test]
fn board_2x2_pass() {
    assert_eq!(parse(&start_text(2)), Ok(Board::new(2)));
}

#[test]
fn board_3x3_fail() {
    assert_eq!(parse(&blank_text(3)), Err(ParsingError::BadSize));
}

#[test]
fn board_4x4_pass() {
    assert_eq!(parse(&start_text(4)), Ok(Board::new(4)));
}

#[test]
fn board_5x5_fail() {
    assert_eq!(parse(&blank_text(5)), Err(ParsingError::BadSize));
}

#[test]
fn board_6x6_pass() {
    assert_eq!(parse(&start_text(6)), Ok(Board::new(6)));
}

#[test]
fn board_7x7_fail() {
    assert_eq!(parse(&blank_text(7)), Err(ParsingError::BadSize));
}

#[test]
fn board_8x8_pass() {
    assert_eq!(parse(&start_text(8)), Ok(Board::new(8)));
}

#[test]
fn board_9x9_fail() {
    assert_eq!(parse(&blank_text(9)), Err(ParsingError::BadSize));
}

#[test]
fn board_10x10_pass() {
    assert_eq!(parse(&start_text(10)), Ok(Board::new(10)));
}

#[test]
fn board_11x11_fail() {
    assert_eq!(parse(&blank_text(11)), Err(ParsingError::BadSize));
}

#[test]
fn board_12x12_fail() {
    assert_eq!(parse(&blank_text(12)), Err(ParsingError::BadSize));
}

#[test]
fn almost_full_board_pass() {
    let mut board = Board::new(8);
    for x in 0..8 {
        for y in 0..8 {
            board = board.set(x, y, Square::Disc(Player::White));
        }
    }
    board = board.set(7, 7, Square::Empty);
    board.player = None;

    let text = format!("X\n{}OOOOOOO_\n", "OOOOOOOO\n".repeat(7));
    assert_eq!(parse(&text), Ok(board));
}

#[test]
fn empty_board_pass() {
    let mut board = Board::new(8)
        .set(3, 3, Square::Empty)
        .set(3, 4, Square::Empty)
        .set(4, 3, Square::Empty)
        .set(4, 4, Square::Empty);
    board.player = None;

    assert_eq!(parse(&blank_text(8)), Ok(board));
}

#[test]
fn empty_file_fail() {
    assert_eq!(parse(""), Err(ParsingError::EmptyFile));
}

#[test]
fn empty_stone_as_current_player_fail() {
    let text = start_text(8).replacen('X', "_", 1);
    assert_eq!(parse(&text), Err(ParsingError::PlayerParseError('_')));
}

#[test]
fn eof_after_current_player_fail() {
    assert_eq!(parse("X"), Err(ParsingError::BadSize));
}

#[test]
fn eof_before_end_of_the_board_fail() {
    let text = start_text(8);
    assert_eq!(parse(&text[..40]), Err(ParsingError::InconsistentSize));
}

#[test]
fn extra_empty_lines_pass() {
    let text = start_text(8).replace('\n', "\n\n\n");
    assert_eq!(parse(&text), Ok(Board::new(8)));
}

#[test]
fn extra_spaces_around_chars_pass() {
    let text: String = start_text(8)
        .chars()
        .map(|c| if c == '\n' { "\n".to_string() } else { format!("  {} \t", c) })
        .collect();
    assert_eq!(parse(&text), Ok(Board::new(8)));
}

#[test]
fn first_line_overflow_fail() {
    let text = format!("X\n{}\n", "_".repeat(16));
    assert_eq!(parse(&text), Err(ParsingError::BadSize));
}

#[test]
fn full_board_pass() {
    let mut board = Board::new(8);
    for x in 0..8 {
        for y in 0..8 {
            board = board.set(x, y, Square::Disc(Player::White));
        }
    }
    board.player = None;

    let text = format!("X\n{}", "OOOOOOOO\n".repeat(8));
    assert_eq!(parse(&text), Ok(board));
}

#[test]
fn impossible_board_01_pass() {
    let mut board = Board::new(8);
    for x in 0..8 {
        for y in 0..8 {
            if (x + y) % 2 == 0 {
                board = board.set(x, y, Square::Disc(Player::White));
            }
        }
    }
    board = board
        .set(3, 4, Square::Empty)
        .set(4, 3, Square::Empty);
    board.player = None;

    let mut text = String::from("X\n");
    for y in 0..8 {
        for x in 0..8 {
            text.push(if (x + y) % 2 == 0 { 'O' } else { '_' });
        }
        text.push('\n');
    }
    assert_eq!(parse(&text), Ok(board));
}

#[test]
fn line_too_long_fail() {
    let mut rows = start_rows(8);
    rows[3].push('_');
    let text = format!("X\n{}\n", rows.join("\n"));
    assert_eq!(parse(&text), Err(ParsingError::InconsistentSize));
}

#[test]
fn line_too_short_fail() {
    let mut rows = start_rows(8);
    rows[5].pop();
    let text = format!("X\n{}\n", rows.join("\n"));
    assert_eq!(parse(&text), Err(ParsingError::InconsistentSize));
}

#[test]
fn line_too_short_with_comment_fail() {
    let mut rows = start_rows(8);
    rows[5].pop();
    rows[5].push_str(" # one cell short");
    let text = format!("X\n{}\n", rows.join("\n"));
    assert_eq!(parse(&text), Err(ParsingError::InconsistentSize));
}

#[test]
fn line_too_short_with_no_newline_fail() {
    let mut rows = start_rows(8);
    rows[7].pop();
    let text = format!("X\n{}", rows.join("\n"));
    assert_eq!(parse(&text), Err(ParsingError::InconsistentSize));
}

#[test]
fn long_line_filled_with_spaces_pass() {
    let mut rows = start_rows(8);
    rows[0] = format!("{}{}", rows[0], " ".repeat(200));
    let text = format!("X\n{}\n", rows.join("\n"));
    assert_eq!(parse(&text), Ok(Board::new(8)));
}

#[test]
fn missing_board_fail() {
    assert_eq!(parse("X\n\n\n"), Err(ParsingError::BadSize));
}

#[test]
fn missing_current_player_fail() {
    let text = format!("{}\n", start_rows(8).join("\n"));
    assert_eq!(parse(&text), Err(ParsingError::PlayerParseError('_')));
}

#[test]
fn missing_newline_after_current_player_pass() {
    let text = start_text(8).replacen("X\n", "X ", 1);
    assert_eq!(parse(&text), Ok(Board::new(8)));
}

#[test]
fn no_final_newline_pass() {
    let text = start_text(8);
    assert_eq!(parse(text.trim_end()), Ok(Board::new(8)));
}

#[test]
fn stop_at_first_line_without_newline_fail() {
    assert_eq!(parse("X\n________"), Err(ParsingError::InconsistentSize));
}

#[test]
fn too_few_lines_fail() {
    let rows = start_rows(8);
    let text = format!("X\n{}\n", rows[..7].join("\n"));
    assert_eq!(parse(&text), Err(ParsingError::InconsistentSize));
}

#[test]
fn too_few_lines_with_comment_fail() {
    let rows = start_rows(8);
    let text = format!("X\n{}\n# the last row is missing\n", rows[..7].join("\n"));
    assert_eq!(parse(&text), Err(ParsingError::InconsistentSize));
}

#[test]
fn too_many_lines_fail() {
    let text = format!("{}________\n", start_text(8));
    assert_eq!(parse(&text), Err(ParsingError::InconsistentSize));
}

#[test]
fn with_comments_pass() {
    let text = format!("# a saved game\n{}", start_text(8).replace('\n', " # row\n"));
    assert_eq!(parse(&text), Ok(Board::new(8)));
}

#[test]
fn wrong_character_fail() {
    let text = start_text(8).replacen("___OX___", "___OXZ__", 1);
    assert_eq!(parse(&text), Err(ParsingError::InvalidCharacter('Z')));
}

#[test]
fn wrong_current_player_char_fail() {
    let text = start_text(8).replacen('X', "Z", 1);
    assert_eq!(parse(&text), Err(ParsingError::PlayerParseError('Z')));
}
