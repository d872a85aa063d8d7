use chess_wire::{
    parse, serialize, serialize_quit, Board, GameState, Message, MessageMove, ParseError,
    PieceKind, Position, SerializeError,
};

fn is_all_zeros(s: &str) -> bool {
    s.chars().all(|c| c == '0')
}

fn move_padding_len(board_len: usize) -> usize {
    128 - 9 - 1 - 5 - 1 - 3 - 1 - board_len - 1
}

#[test]
fn serialize_move_e2e4() {
    let board = Board::new_empty();

    let src = Position::new(4, 1).expect("pos e2");
    let dst = Position::new(4, 3).expect("pos e4");

    let msg = Message::Move(MessageMove {
        board,
        mv: (src, dst),
        prom_piece: None,
        game_state: GameState::Ongoing,
    });

    let s = serialize(&msg).expect("serialize move");
    assert_eq!(s.len(), 128, "MOVE must be 128 bytes");

    let parts: Vec<&str> = s.split(':').collect();
    assert_eq!(parts.len(), 5, "Expected five parts");

    assert_eq!(parts[0], "ChessMOVE");
    assert_eq!(parts[1], "E2E40", "files must be CAPITAL letters");
    assert_eq!(parts[2], "0-0");
    assert_eq!(parts[3], "8/8/8/8/8/8/8/8");
    assert!(is_all_zeros(parts[4]), "padding must be only '0's");

    let pad_len = parts[4].len();
    assert_eq!(
        pad_len,
        move_padding_len(parts[3].len()),
        "padding length must follow the spec formula"
    );

    let parsed = parse(&s).expect("parse serialized move");
    match parsed {
        Message::Move(mm) => {
            assert_eq!(mm.game_state, GameState::Ongoing);
            assert_eq!(mm.prom_piece, None);
            assert_eq!(mm.mv.0, src);
            assert_eq!(mm.mv.1, dst);
        }
        _ => panic!("expected Message::Move"),
    }
}

#[test]
fn serialize_move_with_promotion_and_winwhite() {
    let board = Board::new_empty();
    let src = Position::new(0, 6).unwrap();
    let dst = Position::new(0, 7).unwrap();

    let msg = Message::Move(MessageMove {
        board,
        mv: (src, dst),
        prom_piece: Some(PieceKind::Queen),
        game_state: GameState::WinWhite,
    });

    let s = serialize(&msg).expect("serialize move");
    assert_eq!(s.len(), 128);

    let parts: Vec<&str> = s.split(':').collect();
    assert_eq!(parts[0], "ChessMOVE");
    assert_eq!(parts[1], "A7A8Q", "promotion letter allowed, case-insensitive; file letters CAPITAL");
    assert_eq!(parts[2], "1-0");
    assert!(is_all_zeros(parts[4]));
}

#[test]
fn serialize_move_rejects_invalid_promotion_piece() {
    let board = Board::new_empty();
    let src = Position::new(0, 6).unwrap();
    let dst = Position::new(0, 7).unwrap();

    let msg = Message::Move(MessageMove {
        board,
        mv: (src, dst),
        prom_piece: Some(PieceKind::King),
        game_state: GameState::Ongoing,
    });

    let err = serialize(&msg).expect_err("invalid promotion piece must error");
    assert!(matches!(err, SerializeError::InvalidPromPiece));
}

#[test]
fn serialize_quit_empty_message() {
    let s = serialize_quit("").expect("serialize quit");
    assert_eq!(s.len(), 128);

    let parts: Vec<&str> = s.split(':').collect();
    assert_eq!(parts.len(), 3, "id:message:padding expected");
    assert_eq!(parts[0], "ChessQUIT");
    assert_eq!(parts[1], "", "empty optional message is allowed by spec");
    assert!(is_all_zeros(parts[2]));

    let parsed = parse(&s).expect("parse quit");
    match parsed {
        Message::Quit(m) => assert_eq!(m, ""),
        _ => panic!("expected Message::Quit"),
    }
}

#[test]
fn serialize_quit_with_message() {
    let msg = "I had a panic attack";
    let s = serialize_quit(msg).expect("serialize quit with text");
    assert_eq!(s.len(), 128);

    let parts: Vec<&str> = s.split(':').collect();
    assert_eq!(parts.len(), 3);
    assert_eq!(parts[0], "ChessQUIT");
    assert_eq!(parts[1], msg);
    assert!(is_all_zeros(parts[2]));

    let parsed = parse(&s).expect("parse quit");
    match parsed {
        Message::Quit(m) => assert_eq!(m, msg),
        _ => panic!("expected Message::Quit"),
    }
}

#[test]
fn serialize_quit_rejects_too_long() {
    let too_long = "X".repeat(118);
    let err = serialize_quit(&too_long).expect_err("must reject >117 bytes");
    assert!(matches!(err, SerializeError::TooLongQuitMsg));
}

#[test]
fn parse_quit_missing_padding_is_error() {
    let bad = "ChessQUIT:Bye";
    let res = parse(bad);
    assert_eq!(res, Err(ParseError::WrongAmountOfFields));
}

#[test]
fn parse_quit_with_colon_in_optional_message_is_error() {
    let bad = "ChessQUIT:hello:world:0";
    let res = parse(bad);
    assert_eq!(res, Err(ParseError::WrongAmountOfFields));
}

#[test]
fn parse_valid_move_no_promotion() {
    let fen = "8/8/8/8/8/8/8/8";
    let msg = format!("ChessMOVE:a2a40:0-0:{}:x", fen);

    let result = parse(&msg);
    assert!(matches!(result, Ok(Message::Move(_))));
}

#[test]
fn parse_valid_move_with_promotion() {
    let fen = "8/8/8/8/8/8/8/8";
    let msg = format!("ChessMOVE:a7a8Q:1-0:{}:x", fen);

    let result = parse(&msg);
    match result {
        Ok(Message::Move(m)) => {
            assert_eq!(m.prom_piece, Some(PieceKind::Queen));
            assert!(matches!(m.game_state, GameState::WinWhite));
        }
        _ => panic!("expected valid Move with promotion"),
    }
}

#[test]
fn parse_too_long_message() {
    let msg = "A".repeat(200);
    let result = parse(&msg);
    assert_eq!(result, Err(ParseError::TooLong));
}

#[test]
fn parse_unknown_message_type() {
    let msg = "NotChess:foo:bar:baz:qux";
    let result = parse(msg);
    assert_eq!(result, Err(ParseError::UnknownMessageType));
}

#[test]
fn parse_invalid_move_string() {
    let fen = "8/8/8/8/8/8/8/8";
    let msg = format!("ChessMOVE:a2b:0-0:{}:x", fen);

    let result = parse(&msg);
    assert_eq!(result, Err(ParseError::InvalidMoveFormat));
}

#[test]
fn parse_invalid_game_state() {
    let fen = "8/8/8/8/8/8/8/8";
    let msg = format!("ChessMOVE:a2a40:weird:{}:x", fen);

    let result = parse(&msg);
    assert_eq!(result, Err(ParseError::InvalidGameState));
}

#[test]
fn parse_invalid_fen_char() {
    let fen = "8/8/8/8/8/8/8/7Z";
    let msg = format!("ChessMOVE:a2a40:0-0:{}:x", fen);

    let result = parse(&msg);
    assert_eq!(result, Err(ParseError::InvalidFENChar));
}

#[test]
fn parse_invalid_fen_length() {
    let fen = "8/8/8/8/8/8/8";
    let msg = format!("ChessMOVE:a2a40:0-0:{}:x", fen);

    let result = parse(&msg);
    assert_eq!(result, Err(ParseError::InvalidFENLength));
}
