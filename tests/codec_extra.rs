use chess_wire::{
    decode_frame, encode_frame, parse, parse_fen, parse_message_move, parse_message_quit,
    serialize, serialize_board, serialize_move, serialize_quit, Board, Color, GameState, Message,
    MessageMove, NetError, ParseError, Piece, PieceKind, Position, SerializeError, Slot,
};
use chess_wire::network::FrameReader;

fn pos(f: u8, r: u8) -> Position {
    Position::new(f, r).unwrap()
}

fn put(board: &mut Board, f: u8, r: u8, color: Color, kind: PieceKind) {
    board.set_position(pos(f, r), Slot::Occupied(Piece { color, kind }));
}

fn start_board() -> Board {
    let mut b = Board::new_empty();
    let back = [
        PieceKind::Rook,
        PieceKind::Knight,
        PieceKind::Bishop,
        PieceKind::Queen,
        PieceKind::King,
        PieceKind::Bishop,
        PieceKind::Knight,
        PieceKind::Rook,
    ];
    for f in 0..8u8 {
        put(&mut b, f, 0, Color::White, back[f as usize]);
        put(&mut b, f, 1, Color::White, PieceKind::Pawn);
        put(&mut b, f, 6, Color::Black, PieceKind::Pawn);
        put(&mut b, f, 7, Color::Black, back[f as usize]);
    }
    b
}

fn move_frame(fen: &str) -> String {
    format!("ChessMOVE:e2e40:0-0:{}:0", fen)
}

#[test]
fn empty_board_text() {
    assert_eq!(serialize_board(&Board::new_empty()), "8/8/8/8/8/8/8/8");
}

#[test]
fn start_board_text() {
    assert_eq!(
        serialize_board(&start_board()),
        "RNBQKBNR/PPPPPPPP/8/8/8/8/pppppppp/rnbqkbnr"
    );
}

#[test]
fn board_text_runs_and_order() {
    let mut b = Board::new_empty();
    put(&mut b, 0, 0, Color::White, PieceKind::Rook);
    put(&mut b, 3, 6, Color::Black, PieceKind::Pawn);
    put(&mut b, 7, 7, Color::Black, PieceKind::King);
    assert_eq!(serialize_board(&b), "R7/8/8/8/8/8/3p4/7k");
}

#[test]
fn board_round_trip_with_pieces() {
    let mut b = start_board();
    put(&mut b, 4, 3, Color::White, PieceKind::Queen);
    b.set_position(pos(4, 1), Slot::Empty);
    let text = serialize_board(&b);
    assert_eq!(text, "RNBQKBNR/PPPP1PPP/8/4Q3/8/8/pppppppp/rnbqkbnr");
    assert_eq!(parse_fen(&text), Ok(b));
}

#[test]
fn parse_fen_places_left_to_right() {
    let b = parse_fen("3p4/8/8/8/8/8/8/K7").unwrap();
    assert_eq!(
        b.at_position(pos(3, 0)),
        Slot::Occupied(Piece { color: Color::Black, kind: PieceKind::Pawn })
    );
    assert_eq!(
        b.at_position(pos(0, 7)),
        Slot::Occupied(Piece { color: Color::White, kind: PieceKind::King })
    );
    assert_eq!(b.at_position(pos(4, 0)), Slot::Empty);
}

#[test]
fn parse_fen_rejects_ninth_rank() {
    assert_eq!(parse_fen("8/8/8/8/8/8/8/8/"), Err(ParseError::InvalidFENLength));
}

#[test]
fn parse_fen_rejects_overflowing_run() {
    assert_eq!(parse_fen("8/8/8/8/8/8/8/9"), Err(ParseError::InvalidFENLength));
}

#[test]
fn parse_fen_rejects_extra_piece() {
    assert_eq!(parse_fen("8/8/8/8/8/8/8/8P"), Err(ParseError::InvalidFENLength));
}

#[test]
fn parse_fen_rejects_short_text() {
    assert_eq!(parse_fen(""), Err(ParseError::InvalidFENLength));
}

#[test]
fn parse_fen_rejects_bad_character() {
    assert_eq!(parse_fen("8/8/8/8/8/8/8/7-"), Err(ParseError::InvalidFENChar));
}

#[test]
fn move_round_trip_with_pieces() {
    let msg = Message::Move(MessageMove {
        board: start_board(),
        mv: (pos(7, 6), pos(6, 7)),
        prom_piece: Some(PieceKind::Bishop),
        game_state: GameState::Draw,
    });
    let s = serialize(&msg).unwrap();
    assert_eq!(s.len(), 128);
    assert!(s.starts_with("ChessMOVE:H7G8B:1-1:RNBQKBNR/PPPPPPPP/8/8/8/8/pppppppp/rnbqkbnr:0"));
    assert_eq!(parse(&s), Ok(msg));
}

#[test]
fn move_outcome_codes() {
    for (g, code) in [
        (GameState::Ongoing, "0-0"),
        (GameState::WinWhite, "1-0"),
        (GameState::Draw, "1-1"),
        (GameState::WinBlack, "0-1"),
    ] {
        let m = MessageMove {
            board: Board::new_empty(),
            mv: (pos(1, 0), pos(2, 2)),
            prom_piece: Some(PieceKind::Knight),
            game_state: g,
        };
        let s = serialize_move(&m).unwrap();
        let parts: Vec<&str> = s.split(':').collect();
        assert_eq!(parts[1], "B1C3N");
        assert_eq!(parts[2], code);
        assert_eq!(parse(&s), Ok(Message::Move(m)));
    }
}

#[test]
fn serialize_rejects_pawn_promotion() {
    let m = MessageMove {
        board: Board::new_empty(),
        mv: (pos(0, 6), pos(0, 7)),
        prom_piece: Some(PieceKind::Pawn),
        game_state: GameState::Ongoing,
    };
    assert_eq!(serialize_move(&m), Err(SerializeError::InvalidPromPiece));
}

#[test]
fn quit_longest_reason_fits() {
    let reason = "Y".repeat(117);
    let s = serialize_quit(&reason).unwrap();
    assert_eq!(s.len(), 128);
    assert_eq!(s, format!("ChessQUIT:{}:", reason));
    assert_eq!(parse(&s), Ok(Message::Quit(reason)));
}

#[test]
fn quit_non_ascii_reason_counts_bytes() {
    let reason = "échec";
    let s = serialize(&Message::Quit(reason.to_string())).unwrap();
    assert_eq!(s.len(), 128);
    assert_eq!(s.chars().count(), 127);
    assert_eq!(parse(&s), Ok(Message::Quit(reason.to_string())));
    let long = "é".repeat(59);
    assert_eq!(serialize_quit(&long), Err(SerializeError::TooLongQuitMsg));
}

#[test]
fn parse_frame_length_boundary() {
    let ok = serialize_quit("bye").unwrap();
    assert_eq!(ok.len(), 128);
    assert!(parse(&ok).is_ok());
    let long = format!("{}0", ok);
    assert_eq!(parse(&long), Err(ParseError::TooLong));
}

#[test]
fn parse_rejects_empty_input() {
    assert_eq!(parse(""), Err(ParseError::UnknownMessageType));
}

#[test]
fn parse_tag_is_case_sensitive() {
    assert_eq!(parse("chessquit::0"), Err(ParseError::UnknownMessageType));
}

#[test]
fn parse_move_wrong_field_count() {
    assert_eq!(
        parse("ChessMOVE:a2a40:0-0:8/8/8/8/8/8/8/8"),
        Err(ParseError::WrongAmountOfFields)
    );
}

#[test]
fn parse_move_bad_squares_and_promotion() {
    let fen = "8/8/8/8/8/8/8/8";
    for mv in ["z2a40", "a9a40", "a2a4K", "a2a4p", "a0a40"] {
        let msg = format!("ChessMOVE:{}:0-0:{}:0", mv, fen);
        assert_eq!(parse(&msg), Err(ParseError::InvalidMoveFormat), "{}", mv);
    }
}

#[test]
fn parse_move_lower_case_promotion() {
    match parse("ChessMOVE:H2h1r:0-1:8/8/8/8/8/8/8/8:0") {
        Ok(Message::Move(m)) => {
            assert_eq!(m.prom_piece, Some(PieceKind::Rook));
            assert_eq!(m.mv, (pos(7, 1), pos(7, 0)));
            assert_eq!(m.game_state, GameState::WinBlack);
        }
        other => panic!("unexpected {:?}", other),
    }
}

#[test]
fn parse_move_board_errors() {
    assert_eq!(parse(&move_frame("8/8/8/8/8/8/8/7X")), Err(ParseError::InvalidFENChar));
    assert_eq!(parse(&move_frame("8/8/8/8/8/8/8/8/8")), Err(ParseError::InvalidFENLength));
}

#[test]
fn parse_message_parts_directly() {
    assert_eq!(parse_message_quit(&["why", "000"]), Ok("why".to_string()));
    assert_eq!(parse_message_quit(&["why"]), Err(ParseError::WrongAmountOfFields));
    assert_eq!(
        parse_message_move(&["a1h80", "1-1", "8/8/8/8/8/8/8/8"]),
        Err(ParseError::WrongAmountOfFields)
    );
    let m = parse_message_move(&["a1h80", "1-1", "8/8/8/8/8/8/8/8", ""]).unwrap();
    assert_eq!(m.mv, (pos(0, 0), pos(7, 7)));
    assert_eq!(m.game_state, GameState::Draw);
}

#[test]
fn position_bounds() {
    assert!(Position::new(8, 0).is_none());
    assert!(Position::new(0, 8).is_none());
    let p = Position::new(7, 7).unwrap();
    assert_eq!((p.column(), p.row()), (7, 7));
}

#[test]
fn frame_bytes_round_trip() {
    let msg = Message::Quit("gg".to_string());
    let bytes = encode_frame(&msg).unwrap();
    assert_eq!(bytes.len(), 128);
    assert_eq!(&bytes[..13], b"ChessQUIT:gg:");
    match decode_frame(&bytes) {
        Ok(m) => assert_eq!(m, msg),
        Err(e) => panic!("unexpected {:?}", e),
    }
}

#[test]
fn decode_frame_replaces_invalid_bytes() {
    let mut bytes = b"ChessQUIT:x:".to_vec();
    bytes[10] = 0xff;
    match decode_frame(&bytes) {
        Ok(Message::Quit(r)) => assert_eq!(r, "\u{fffd}"),
        other => panic!("unexpected {:?}", other),
    }
    match decode_frame(b"Nope:") {
        Err(NetError::ParseError(ParseError::UnknownMessageType)) => {}
        other => panic!("unexpected {:?}", other),
    }
}

#[test]
fn encode_frame_reports_serialize_error() {
    let m = Message::Quit("x".repeat(200));
    match encode_frame(&m) {
        Err(NetError::SerializeError(SerializeError::TooLongQuitMsg)) => {}
        other => panic!("unexpected {:?}", other),
    }
}

#[test]
fn net_error_from_codec_errors() {
    assert!(matches!(
        NetError::from(ParseError::TooLong),
        NetError::ParseError(ParseError::TooLong)
    ));
    assert!(matches!(
        NetError::from(SerializeError::InvalidPromPiece),
        NetError::SerializeError(SerializeError::InvalidPromPiece)
    ));
}

#[test]
fn frame_reader_collects_partial_reads() {
    let frame = encode_frame(&Message::Quit("hi".to_string())).unwrap();
    let mut reader = FrameReader::new();
    assert!(reader.take_frame().is_none());
    reader.push_bytes(&frame[..100]);
    assert!(reader.take_frame().is_none());
    assert_eq!(reader.pending_len(), 100);
    reader.push_bytes(&frame[100..]);
    reader.push_bytes(&frame[..5]);
    let got = reader.take_frame().unwrap();
    assert_eq!(got, frame);
    assert_eq!(reader.pending_len(), 5);
    assert!(reader.take_frame().is_none());
}

#[test]
fn frame_reader_receive_in_two_reads() {
    let msg = Message::Move(MessageMove {
        board: start_board(),
        mv: (pos(4, 1), pos(4, 3)),
        prom_piece: None,
        game_state: GameState::Ongoing,
    });
    let frame = encode_frame(&msg).unwrap();
    let mut reader = FrameReader::new();
    assert!(reader.receive(&frame[..40]).is_none());
    match reader.receive(&frame[40..]) {
        Some(Ok(m)) => assert_eq!(m, msg),
        other => panic!("unexpected {:?}", other),
    }
    assert_eq!(reader.pending_len(), 0);
    assert!(reader.receive(&[]).is_none());
}

#[test]
fn decode_frame_of_valid_text_is_parse() {
    let text = "ChessMOVE:a2a40:0-0:8/8/8/8/8/8/8/8:x";
    match (decode_frame(text.as_bytes()), parse(text)) {
        (Ok(a), Ok(b)) => assert_eq!(a, b),
        other => panic!("unexpected {:?}", other),
    }
}

#[test]
fn parse_fen_seven_full_ranks() {
    assert_eq!(parse_fen("8/8/8/8/8/8/8"), Err(ParseError::InvalidFENLength));
    assert_eq!(parse_fen("RNBQKBNR/PPPPPPPP/8/8/8/pppppppp/rnbqkbnr"), Err(ParseError::InvalidFENLength));
    assert!(parse_fen("8/8/8/8/8/8/88").is_ok());
}
