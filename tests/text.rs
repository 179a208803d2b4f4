use rustversi::board::{Board, Move, ParsingError, Player, Square};
use rustversi::text::next_ignore_chars;

fn parse(s: &str) -> Result<Board, ParsingError> {
    Board::parse(s.as_bytes())
}

#[test]
fn ignore_chars() {
    let text = "BEFORE COMMENT #IN COMMENT\nAFTER COMMENT".as_bytes();
    let mut pos = 0;
    let mut no_comment: Vec<char> = vec!();
    while let (Some(c), next) = next_ignore_chars(text, pos) {
        no_comment.push(c);
        pos = next;
    }
    let s = no_comment.into_iter().collect::<String>();
    println!("{}", s);
    assert_eq!(s, "BEFORECOMMENT\nAFTERCOMMENT");
}

#[test]
fn file_conversion() {
    assert_eq!(parse("X\n____\n_OX_\n_XO_\n____\n"), Ok(Board::new(4)));
    assert_eq!(parse("X\n______\n______\n__OX__\n__XO__\n______\n______\n"), Ok(Board::new(6)));
    assert_eq!(
        parse("X\n________\n________\n________\n___OX___\n___XO___\n________\n________\n________\n"),
        Ok(Board::new(8))
    );
    assert_eq!(
        parse("X\n__________\n__________\n__________\n__________\n____OX____\n____XO____\n__________\n__________\n__________\n__________\n"),
        Ok(Board::new(10))
    );
    assert_eq!(parse("X\n_a__\n_OX_\n_XO_\n____\n"), Err(ParsingError::InvalidCharacter('a')));
    assert_eq!(parse("X\n____\n_OX_\n_XO_\n____\n____"), Err(ParsingError::InconsistentSize));
    assert_eq!(parse("X\n____\n_OX__\n_XO_\n____"), Err(ParsingError::InconsistentSize));
    assert_eq!(parse("X\n__\nOX_\nXO\n__"), Err(ParsingError::InconsistentSize));
}

#[test]
fn two_by_two_board_has_ended() {
    assert_eq!(parse("X\nOX\nXO\n"), Ok(Board::new(2)));
}

#[test]
fn bad_sizes_are_refused() {
    assert_eq!(parse("X\n"), Err(ParsingError::BadSize));
    assert_eq!(parse("X\n_\n"), Err(ParsingError::BadSize));
    assert_eq!(parse("X\n___\n___\n___\n"), Err(ParsingError::BadSize));
    assert_eq!(parse("X\n_____\n_____\n_____\n_____\n_____\n"), Err(ParsingError::BadSize));
    assert_eq!(parse("X\n____________\n"), Err(ParsingError::BadSize));
}

#[test]
fn empty_text_is_refused() {
    assert_eq!(parse(""), Err(ParsingError::EmptyFile));
    assert_eq!(parse("\n\n  \t\n"), Err(ParsingError::EmptyFile));
    assert_eq!(parse("# only a comment\n\n"), Err(ParsingError::EmptyFile));
}

#[test]
fn player_errors() {
    assert_eq!(parse("_\n____\n_OX_\n_XO_\n____\n"), Err(ParsingError::PlayerParseError('_')));
    assert_eq!(parse("Z\n____\n_OX_\n_XO_\n____\n"), Err(ParsingError::PlayerParseError('Z')));
}

#[test]
fn invalid_character_in_later_row() {
    assert_eq!(parse("X\n____\n_OZ_\n_XO_\n____\n"), Err(ParsingError::InvalidCharacter('Z')));
}

#[test]
fn wrong_row_counts() {
    assert_eq!(parse("X\n____\n_OX_\n_XO_\n"), Err(ParsingError::InconsistentSize));
    assert_eq!(parse("X\n____\n_OX_\n_XO_\n___\n"), Err(ParsingError::InconsistentSize));
}

#[test]
fn comments_blanks_and_empty_lines_are_ignored() {
    let text = "# a saved game\n\n  X # black to move\n\n_ _ _ _\n_OX_   \n\n_XO_ # middle\n____";
    assert_eq!(parse(text), Ok(Board::new(4)));
    assert_eq!(parse("X____\n_OX_\n_XO_\n____\n"), Ok(Board::new(4)));
}

#[test]
fn declared_player_without_moves_passes() {
    // White is declared but only Black can move.
    let text = "O\nXXO_\n____\n____\n____\n";
    let b = parse(text).expect("well formed");
    assert_eq!(b.player, Some(Player::Black));
    assert_eq!(b.moves(), vec![Move { x: 3, y: 0 }]);
    // Nobody can move.
    let b = parse("X\nXX__\n____\n____\n____\n").expect("well formed");
    assert_eq!(b.player, None);
    assert!(b.moves().is_empty());
}

#[test]
fn round_trip_of_canonical_text() {
    for text in [
        "X\n____\n_OX_\n_XO_\n____\n",
        "O\n______\n__X___\n__XX__\n__XO__\n______\n______\n",
    ] {
        let b = parse(text).expect("well formed");
        assert_eq!(b.to_text(), text.as_bytes().to_vec());
    }
}

#[test]
fn text_of_a_board() {
    let b = Board::new(4).set(0, 0, Square::Disc(Player::White));
    assert_eq!(String::from_utf8(b.to_text()).unwrap(), "X\nO___\n_OX_\n_XO_\n____\n");
}

#[test]
fn move_names() {
    assert_eq!(Move::from_text(b"a1"), Some(Move { x: 0, y: 0 }));
    assert_eq!(Move::from_text(b"C4"), Some(Move { x: 2, y: 3 }));
    assert_eq!(Move::from_text(b"h+8"), Some(Move { x: 7, y: 7 }));
    assert_eq!(Move::from_text(b"b010"), Some(Move { x: 1, y: 9 }));
    assert_eq!(Move::from_text(b"z255"), Some(Move { x: 25, y: 254 }));
    assert_eq!(Move::from_text(b"a0"), None);
    assert_eq!(Move::from_text(b"a256"), None);
    assert_eq!(Move::from_text(b"a"), None);
    assert_eq!(Move::from_text(b"a+"), None);
    assert_eq!(Move::from_text(b""), None);
    assert_eq!(Move::from_text(b"1a"), None);
    assert_eq!(Move::from_text(b"a1x"), None);
    assert_eq!(Move::from_text("\u{e9}1".as_bytes()), None);
}
