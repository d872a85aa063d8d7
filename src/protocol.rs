use vstd::prelude::*;
use vstd::utf8::{encode_utf8, is_ascii_chars, is_ascii_chars_encode_utf8};
use crate::board::{Board, PieceKind, Position, Slot};
use crate::fen::{board_text, fen_decode, is_board_char, lemma_board_text_shape, parse_fen, serialize_board};
use crate::text::push_char;

verus! {

/// Why a frame could not be decoded.
#[derive(Clone, Copy, PartialEq, Eq, Structural, Debug)]
pub enum ParseError {
    TooLong,
    UnknownMessageType,
    WrongAmountOfFields,
    InvalidMoveFormat,
    InvalidGameState,
    InvalidFENChar,
    InvalidFENLength,
}

/// Why a message could not be encoded.
#[derive(Clone, Copy, PartialEq, Eq, Structural, Debug)]
pub enum SerializeError {
    InvalidPromPiece,
    TooLongQuitMsg,
}

/// Outcome of the game after a move.
#[derive(Clone, Copy, PartialEq, Eq, Structural, Debug)]
pub enum GameState {
    Ongoing,
    WinWhite,
    Draw,
    WinBlack,
}

/// A move notification: the board after the move, the move from square to
/// square, the piece a pawn is promoted to, and the outcome.
#[derive(Clone, Copy, PartialEq, Eq, Debug)]
pub struct MessageMove {
    pub board: Board,
    pub mv: (Position, Position),
    pub prom_piece: Option<PieceKind>,
    pub game_state: GameState,
}

/// A protocol message.
#[derive(Clone, PartialEq, Eq, Debug)]
pub enum Message {
    Quit(String),
    Move(MessageMove),
}

/// What a message holds, with squares as sequences and positions as
/// `(file, rank)` pairs.
pub enum MessageModel {
    Quit(Seq<char>),
    Move {
        board: Seq<Slot>,
        src: (u8, u8),
        dst: (u8, u8),
        prom_piece: Option<PieceKind>,
        game_state: GameState,
    },
}

/// A position as its `(file, rank)` pair.
pub open spec fn position_model(p: Position) -> (u8, u8) {
    (p.spec_column(), p.spec_row())
}

/// What a move message holds.
pub open spec fn move_model(m: MessageMove) -> MessageModel {
    MessageModel::Move {
        board: m.board@,
        src: position_model(m.mv.0),
        dst: position_model(m.mv.1),
        prom_piece: m.prom_piece,
        game_state: m.game_state,
    }
}

impl View for Message {
    type V = MessageModel;

    open spec fn view(&self) -> MessageModel {
        match self {
            Message::Quit(s) => MessageModel::Quit(s@),
            Message::Move(m) => move_model(*m),
        }
    }
}

/// Length in bytes of every frame.
pub const FRAME_LEN: usize = 128;

/// Number of bytes in the UTF-8 encoding of a text.
pub open spec fn byte_len(s: Seq<char>) -> nat {
    encode_utf8(s).len()
}

/// Tag of a move frame, `ChessMOVE`.
pub open spec fn move_tag() -> Seq<char> {
    seq!['C', 'h', 'e', 's', 's', 'M', 'O', 'V', 'E']
}

/// Tag of a quit frame, `ChessQUIT`.
pub open spec fn quit_tag() -> Seq<char> {
    seq!['C', 'h', 'e', 's', 's', 'Q', 'U', 'I', 'T']
}

/// `n` padding characters `0`.
pub open spec fn zeros(n: nat) -> Seq<char> {
    Seq::new(n, |i: int| '0')
}

/// A text padded with `0` up to the frame length in bytes.
pub open spec fn pad_frame(s: Seq<char>) -> Seq<char> {
    s + zeros((FRAME_LEN - byte_len(s)) as nat)
}

/// Letter of a file, `0..8` to `A..H`.
pub open spec fn file_char(f: u8) -> char {
    match f {
        0 => 'A',
        1 => 'B',
        2 => 'C',
        3 => 'D',
        4 => 'E',
        5 => 'F',
        6 => 'G',
        _ => 'H',
    }
}

/// Digit of a rank, `0..8` to `1..8`.
pub open spec fn rank_char(r: u8) -> char {
    match r {
        0 => '1',
        1 => '2',
        2 => '3',
        3 => '4',
        4 => '5',
        5 => '6',
        6 => '7',
        _ => '8',
    }
}

/// File of a letter, in either case.
pub open spec fn file_of(c: char) -> Option<u8> {
    match c {
        'A' | 'a' => Some(0u8),
        'B' | 'b' => Some(1u8),
        'C' | 'c' => Some(2u8),
        'D' | 'd' => Some(3u8),
        'E' | 'e' => Some(4u8),
        'F' | 'f' => Some(5u8),
        'G' | 'g' => Some(6u8),
        'H' | 'h' => Some(7u8),
        _ => None,
    }
}

/// Rank of a digit.
pub open spec fn rank_of(c: char) -> Option<u8> {
    match c {
        '1' => Some(0u8),
        '2' => Some(1u8),
        '3' => Some(2u8),
        '4' => Some(3u8),
        '5' => Some(4u8),
        '6' => Some(5u8),
        '7' => Some(6u8),
        '8' => Some(7u8),
        _ => None,
    }
}

/// Text of a square: file letter, then rank digit.
pub open spec fn square_text(p: (u8, u8)) -> Seq<char> {
    seq![file_char(p.0), rank_char(p.1)]
}

/// The square that a letter and a digit name.
pub open spec fn square_of(f: char, r: char) -> Option<(u8, u8)> {
    match (file_of(f), rank_of(r)) {
        (Some(x), Some(y)) => Some((x, y)),
        _ => None,
    }
}

/// Character of a requested promotion; none for a pawn or a king.
pub open spec fn prom_char(k: Option<PieceKind>) -> Option<char> {
    match k {
        None => Some('0'),
        Some(PieceKind::Knight) => Some('N'),
        Some(PieceKind::Bishop) => Some('B'),
        Some(PieceKind::Rook) => Some('R'),
        Some(PieceKind::Queen) => Some('Q'),
        _ => None,
    }
}

/// Promotion that a character requests, in either case.
pub open spec fn prom_of(c: char) -> Option<Option<PieceKind>> {
    match c {
        '0' => Some(None),
        'N' | 'n' => Some(Some(PieceKind::Knight)),
        'B' | 'b' => Some(Some(PieceKind::Bishop)),
        'R' | 'r' => Some(Some(PieceKind::Rook)),
        'Q' | 'q' => Some(Some(PieceKind::Queen)),
        _ => None,
    }
}

/// Outcome code: `0-0` ongoing, `1-0` White wins, `1-1` draw, `0-1` Black wins.
pub open spec fn state_text(g: GameState) -> Seq<char> {
    match g {
        GameState::Ongoing => seq!['0', '-', '0'],
        GameState::WinWhite => seq!['1', '-', '0'],
        GameState::Draw => seq!['1', '-', '1'],
        GameState::WinBlack => seq!['0', '-', '1'],
    }
}

/// Outcome that a code stands for.
pub open spec fn state_of(s: Seq<char>) -> Option<GameState> {
    if s == state_text(GameState::Ongoing) {
        Some(GameState::Ongoing)
    } else if s == state_text(GameState::WinWhite) {
        Some(GameState::WinWhite)
    } else if s == state_text(GameState::WinBlack) {
        Some(GameState::WinBlack)
    } else if s == state_text(GameState::Draw) {
        Some(GameState::Draw)
    } else {
        None
    }
}

/// The five characters of a move: source square, destination square, promotion.
pub open spec fn move_text(src: (u8, u8), dst: (u8, u8), prom: char) -> Seq<char> {
    square_text(src) + square_text(dst) + seq![prom]
}

/// A move frame up to and with the separator before the padding.
pub open spec fn move_body(
    board: Seq<Slot>,
    src: (u8, u8),
    dst: (u8, u8),
    prom: char,
    game_state: GameState,
) -> Seq<char> {
    move_tag() + seq![':'] + move_text(src, dst, prom) + seq![':'] + state_text(game_state) + seq![
        ':',
    ] + board_text(board) + seq![':']
}

/// A quit frame up to and with the separator before the padding.
pub open spec fn quit_body(reason: Seq<char>) -> Seq<char> {
    quit_tag() + seq![':'] + reason + seq![':']
}

/// The frame of a message, or why it has none.
pub open spec fn frame_of(m: MessageModel) -> Result<Seq<char>, SerializeError> {
    match m {
        MessageModel::Move { board, src, dst, prom_piece, game_state } => match prom_char(
            prom_piece,
        ) {
            None => Err(SerializeError::InvalidPromPiece),
            Some(c) => Ok(pad_frame(move_body(board, src, dst, c, game_state))),
        },
        MessageModel::Quit(reason) => if byte_len(quit_body(reason)) > FRAME_LEN {
            Err(SerializeError::TooLongQuitMsg)
        } else {
            Ok(pad_frame(quit_body(reason)))
        },
    }
}

/// The fields of a text between its `:` separators, from left to right.
pub open spec fn split_fields(s: Seq<char>) -> Seq<Seq<char>>
    decreases s.len(),
{
    if s.len() == 0 {
        seq![seq![]]
    } else {
        let init = split_fields(s.drop_last());
        if s.last() == ':' {
            init.push(seq![])
        } else {
            init.update(init.len() - 1, init.last().push(s.last()))
        }
    }
}

/// Reads the fields of a move frame after its tag.
pub open spec fn move_of_fields(f: Seq<Seq<char>>) -> Result<MessageModel, ParseError> {
    if f.len() != 4 {
        Err(ParseError::WrongAmountOfFields)
    } else {
        let mv = f[0];
        if mv.len() != 5 || prom_of(mv[4]) is None || square_of(mv[0], mv[1]) is None
            || square_of(mv[2], mv[3]) is None {
            Err(ParseError::InvalidMoveFormat)
        } else if state_of(f[1]) is None {
            Err(ParseError::InvalidGameState)
        } else {
            match fen_decode(f[2]) {
                Err(e) => Err(e),
                Ok(board) => Ok(
                    MessageModel::Move {
                        board,
                        src: square_of(mv[0], mv[1])->0,
                        dst: square_of(mv[2], mv[3])->0,
                        prom_piece: prom_of(mv[4])->0,
                        game_state: state_of(f[1])->0,
                    },
                ),
            }
        }
    }
}

/// Reads the fields of a quit frame after its tag.
pub open spec fn quit_of_fields(f: Seq<Seq<char>>) -> Result<Seq<char>, ParseError> {
    if f.len() == 2 {
        Ok(f[0])
    } else {
        Err(ParseError::WrongAmountOfFields)
    }
}

/// The message that a frame holds, or why it holds none.
pub open spec fn message_of(s: Seq<char>) -> Result<MessageModel, ParseError> {
    if byte_len(s) > FRAME_LEN {
        Err(ParseError::TooLong)
    } else {
        let f = split_fields(s);
        if f[0] == move_tag() {
            move_of_fields(f.drop_first())
        } else if f[0] == quit_tag() {
            match quit_of_fields(f.drop_first()) {
                Ok(r) => Ok(MessageModel::Quit(r)),
                Err(e) => Err(e),
            }
        } else {
            Err(ParseError::UnknownMessageType)
        }
    }
}

/// The characters of each text.
pub open spec fn text_views(v: Seq<&str>) -> Seq<Seq<char>> {
    v.map_values(|t: &str| t@)
}

/// Splits a text at each `:`.
pub fn split_fields_exec<'a>(s: &'a str) -> (r: Vec<&'a str>)
    ensures
        text_views(r@) == split_fields(s@),
{
    let n = s.unicode_len();
    let mut out: Vec<&'a str> = Vec::new();
    let mut start: usize = 0;
    let mut i: usize = 0;
    assert(s@.subrange(0, 0) =~= Seq::<char>::empty());
    assert(text_views(out@) =~= Seq::<Seq<char>>::empty());
    while i < n
        invariant
            n == s@.len(),
            start <= i <= n,
            split_fields(s@.subrange(0, i as int)) == text_views(out@).push(
                s@.subrange(start as int, i as int),
            ),
        decreases n - i,
    {
        let c = s.get_char(i);
        let ghost prefix = s@.subrange(0, i + 1);
        assert(prefix.drop_last() =~= s@.subrange(0, i as int));
        assert(prefix.last() == c);
        if c == ':' {
            let field = s.substring_char(start, i);
            let ghost before = out@;
            out.push(field);
            start = i + 1;
            assert(text_views(out@) =~= text_views(before).push(field@));
            assert(s@.subrange(start as int, i + 1) =~= Seq::<char>::empty());
            assert(split_fields(prefix) =~= text_views(out@).push(s@.subrange(start as int, i + 1)));
        } else {
            assert(s@.subrange(start as int, i + 1) =~= s@.subrange(start as int, i as int).push(c));
            assert(split_fields(prefix) =~= text_views(out@).push(s@.subrange(start as int, i + 1)));
        }
        i = i + 1;
    }
    let field = s.substring_char(start, n);
    let ghost before = out@;
    out.push(field);
    assert(s@.subrange(0, n as int) =~= s@);
    assert(text_views(out@) =~= text_views(before).push(field@));
    out
}

/// Whether two texts hold the same characters.
fn same_text(a: &str, b: &str) -> (r: bool)
    ensures
        r == (a@ == b@),
{
    let n = a.unicode_len();
    if n != b.unicode_len() {
        return false;
    }
    let mut i: usize = 0;
    while i < n
        invariant
            n == a@.len(),
            n == b@.len(),
            i <= n,
            forall|j: int| 0 <= j < i ==> a@[j] == b@[j],
        decreases n - i,
    {
        if a.get_char(i) != b.get_char(i) {
            return false;
        }
        i = i + 1;
    }
    assert(a@ =~= b@);
    true
}

fn file_letter(f: u8) -> (c: char)
    ensures
        c == file_char(f),
{
    match f {
        0 => 'A',
        1 => 'B',
        2 => 'C',
        3 => 'D',
        4 => 'E',
        5 => 'F',
        6 => 'G',
        _ => 'H',
    }
}

fn rank_digit(r: u8) -> (c: char)
    ensures
        c == rank_char(r),
{
    match r {
        0 => '1',
        1 => '2',
        2 => '3',
        3 => '4',
        4 => '5',
        5 => '6',
        6 => '7',
        _ => '8',
    }
}

fn file_index(c: char) -> (r: Option<u8>)
    ensures
        r == file_of(c),
{
    match c {
        'A' | 'a' => Some(0),
        'B' | 'b' => Some(1),
        'C' | 'c' => Some(2),
        'D' | 'd' => Some(3),
        'E' | 'e' => Some(4),
        'F' | 'f' => Some(5),
        'G' | 'g' => Some(6),
        'H' | 'h' => Some(7),
        _ => None,
    }
}

fn rank_index(c: char) -> (r: Option<u8>)
    ensures
        r == rank_of(c),
{
    match c {
        '1' => Some(0),
        '2' => Some(1),
        '3' => Some(2),
        '4' => Some(3),
        '5' => Some(4),
        '6' => Some(5),
        '7' => Some(6),
        '8' => Some(7),
        _ => None,
    }
}

/// Appends the letter and digit of a square.
fn push_position(out: &mut String, p: Position)
    ensures
        final(out)@ == old(out)@ + square_text(position_model(p)),
{
    push_char(out, file_letter(p.column()));
    push_char(out, rank_digit(p.row()));
    assert(final(out)@ =~= old(out)@ + square_text(position_model(p)));
}

/// Reads a square from its file letter (either case) and rank digit.
pub fn parse_position(f: char, r: char) -> (p: Option<Position>)
    ensures
        match square_of(f, r) {
            None => p is None,
            Some(q) => p matches Some(x) && position_model(x) == q,
        },
{
    match (file_index(f), rank_index(r)) {
        (Some(x), Some(y)) => Position::new(x, y),
        _ => None,
    }
}

/// Appends every character of `s`.
fn push_text(out: &mut String, s: &str)
    ensures
        final(out)@ == old(out)@ + s@,
{
    let n = s.unicode_len();
    let mut i: usize = 0;
    while i < n
        invariant
            n == s@.len(),
            i <= n,
            out@ == old(out)@ + s@.subrange(0, i as int),
        decreases n - i,
    {
        push_char(out, s.get_char(i));
        assert(s@.subrange(0, i + 1) =~= s@.subrange(0, i as int).push(s@[i as int]));
        assert(out@ =~= old(out)@ + s@.subrange(0, i + 1));
        i = i + 1;
    }
    assert(s@.subrange(0, n as int) =~= s@);
}

/// Appends `0` until the text is a whole frame long in bytes.
fn pad_to_frame(out: &mut String)
    requires
        byte_len(old(out)@) <= FRAME_LEN,
    ensures
        final(out)@ == pad_frame(old(out)@),
{
    let n = out.as_str().as_bytes().len();
    let count = FRAME_LEN - n;
    let mut k: usize = 0;
    while k < count
        invariant
            k <= count,
            count == FRAME_LEN - byte_len(old(out)@),
            out@ == old(out)@ + zeros(k as nat),
        decreases count - k,
    {
        push_char(out, '0');
        assert(out@ =~= old(out)@ + zeros((k + 1) as nat));
        k = k + 1;
    }
}

/// A text result with the text as characters.
pub open spec fn text_result<E>(r: Result<String, E>) -> Result<Seq<char>, E> {
    match r {
        Ok(s) => Ok(s@),
        Err(e) => Err(e),
    }
}

/// A decoding result with the message as its model.
pub open spec fn message_result(r: Result<Message, ParseError>) -> Result<MessageModel, ParseError> {
    match r {
        Ok(m) => Ok(m@),
        Err(e) => Err(e),
    }
}

/// A move decoding result with the move as its model.
pub open spec fn move_result(r: Result<MessageMove, ParseError>) -> Result<MessageModel, ParseError> {
    match r {
        Ok(m) => Ok(move_model(m)),
        Err(e) => Err(e),
    }
}

proof fn lemma_ascii_concat(a: Seq<char>, b: Seq<char>)
    requires
        is_ascii_chars(a),
        is_ascii_chars(b),
    ensures
        is_ascii_chars(a + b),
{
    assert forall|i: int| 0 <= i < (a + b).len() implies '\0' <= #[trigger] (a + b)[i] <= '\u{7f}' by {
        if i < a.len() {
            assert((a + b)[i] == a[i]);
        } else {
            assert((a + b)[i] == b[i - a.len()]);
        }
    }
}

/// A move frame before its padding is ASCII and at most 92 characters long.
pub proof fn lemma_move_body_shape(
    board: Seq<Slot>,
    src: (u8, u8),
    dst: (u8, u8),
    prom: char,
    game_state: GameState,
)
    requires
        board.len() == 64,
        '\0' <= prom <= '\u{7f}',
    ensures
        is_ascii_chars(move_body(board, src, dst, prom, game_state)),
        move_body(board, src, dst, prom, game_state).len() <= 92,
{
    lemma_board_text_shape(board);
    let bt = board_text(board);
    assert forall|i: int| 0 <= i < bt.len() implies '\0' <= #[trigger] bt[i] <= '\u{7f}' by {
        assert(is_board_char(bt[i]));
    }
    let sep = seq![':'];
    assert(is_ascii_chars(sep));
    assert(is_ascii_chars(move_tag()));
    assert(is_ascii_chars(move_text(src, dst, prom)));
    assert(is_ascii_chars(state_text(game_state)));
    lemma_ascii_concat(move_tag(), sep);
    lemma_ascii_concat(move_tag() + sep, move_text(src, dst, prom));
    lemma_ascii_concat(move_tag() + sep + move_text(src, dst, prom), sep);
    let a = move_tag() + sep + move_text(src, dst, prom) + sep;
    lemma_ascii_concat(a, state_text(game_state));
    lemma_ascii_concat(a + state_text(game_state), sep);
    lemma_ascii_concat(a + state_text(game_state) + sep, bt);
    lemma_ascii_concat(a + state_text(game_state) + sep + bt, sep);
}

/// The fields of any text are at least one.
pub proof fn lemma_split_nonempty(s: Seq<char>)
    ensures
        split_fields(s).len() >= 1,
    decreases s.len(),
{
    if s.len() > 0 {
        lemma_split_nonempty(s.drop_last());
    }
}

fn push_state(out: &mut String, g: GameState)
    ensures
        final(out)@ == old(out)@ + state_text(g),
{
    let (a, c) = match g {
        GameState::Ongoing => ('0', '0'),
        GameState::WinWhite => ('1', '0'),
        GameState::Draw => ('1', '1'),
        GameState::WinBlack => ('0', '1'),
    };
    push_char(out, a);
    push_char(out, '-');
    push_char(out, c);
    assert(final(out)@ =~= old(out)@ + state_text(g));
}

/// Encodes a move message as a whole frame.
pub fn serialize_move(message: &MessageMove) -> (r: Result<String, SerializeError>)
    ensures
        text_result(r) == frame_of(move_model(*message)),
{
    let prom = match message.prom_piece {
        Some(PieceKind::Knight) => 'N',
        Some(PieceKind::Bishop) => 'B',
        Some(PieceKind::Rook) => 'R',
        Some(PieceKind::Queen) => 'Q',
        None => '0',
        _ => {
            return Err(SerializeError::InvalidPromPiece);
        },
    };
    let ghost src = position_model(message.mv.0);
    let ghost dst = position_model(message.mv.1);
    let mut out = String::new();
    push_text(&mut out, "ChessMOVE");
    proof {
        reveal_strlit("ChessMOVE");
        assert(out@ =~= move_tag());
    }
    push_char(&mut out, ':');
    push_position(&mut out, message.mv.0);
    push_position(&mut out, message.mv.1);
    push_char(&mut out, prom);
    push_char(&mut out, ':');
    push_state(&mut out, message.game_state);
    push_char(&mut out, ':');
    let board = serialize_board(&message.board);
    push_text(&mut out, board.as_str());
    push_char(&mut out, ':');
    proof {
        assert(out@ =~= move_body(message.board@, src, dst, prom, message.game_state));
        lemma_move_body_shape(message.board@, src, dst, prom, message.game_state);
        is_ascii_chars_encode_utf8(out@);
    }
    pad_to_frame(&mut out);
    Ok(out)
}

/// Encodes a quit message with its reason as a whole frame. The reason must
/// leave the frame within its length.
pub fn serialize_quit(str: &str) -> (r: Result<String, SerializeError>)
    ensures
        text_result(r) == frame_of(MessageModel::Quit(str@)),
{
    let mut out = String::new();
    push_text(&mut out, "ChessQUIT");
    proof {
        reveal_strlit("ChessQUIT");
        assert(out@ =~= quit_tag());
    }
    push_char(&mut out, ':');
    push_text(&mut out, str);
    push_char(&mut out, ':');
    assert(out@ =~= quit_body(str@));
    if out.as_str().as_bytes().len() > FRAME_LEN {
        return Err(SerializeError::TooLongQuitMsg);
    }
    pad_to_frame(&mut out);
    Ok(out)
}

/// Encodes a message as a whole frame.
pub fn serialize(message: &Message) -> (r: Result<String, SerializeError>)
    ensures
        text_result(r) == frame_of(message@),
{
    match message {
        Message::Move(m) => serialize_move(m),
        Message::Quit(s) => serialize_quit(s.as_str()),
    }
}

fn parse_game_state(s: &str) -> (r: Option<GameState>)
    ensures
        r == state_of(s@),
{
    if s.unicode_len() != 3 || s.get_char(1) != '-' {
        return None;
    }
    let a = s.get_char(0);
    let c = s.get_char(2);
    assert(s@ =~= seq![a, '-', c]);
    if a == '0' && c == '0' {
        Some(GameState::Ongoing)
    } else if a == '1' && c == '0' {
        Some(GameState::WinWhite)
    } else if a == '0' && c == '1' {
        Some(GameState::WinBlack)
    } else if a == '1' && c == '1' {
        Some(GameState::Draw)
    } else {
        None
    }
}

/// Reads the fields of a quit frame after its tag: the reason and the padding.
pub fn parse_message_quit(message: &[&str]) -> (r: Result<String, ParseError>)
    ensures
        text_result(r) == quit_of_fields(text_views(message@)),
{
    if message.len() == 2 {
        Ok(message[0].to_owned())
    } else {
        Err(ParseError::WrongAmountOfFields)
    }
}

/// Reads the fields of a move frame after its tag: move, outcome, board and
/// padding.
pub fn parse_message_move(message: &[&str]) -> (r: Result<MessageMove, ParseError>)
    ensures
        move_result(r) == move_of_fields(text_views(message@)),
{
    if message.len() != 4 {
        return Err(ParseError::WrongAmountOfFields);
    }
    let ghost f = text_views(message@);
    let mv = message[0];
    assert(mv@ == f[0]);
    if mv.unicode_len() != 5 {
        return Err(ParseError::InvalidMoveFormat);
    }
    let prom_piece = match mv.get_char(4) {
        '0' => None,
        'N' | 'n' => Some(PieceKind::Knight),
        'B' | 'b' => Some(PieceKind::Bishop),
        'R' | 'r' => Some(PieceKind::Rook),
        'Q' | 'q' => Some(PieceKind::Queen),
        _ => {
            return Err(ParseError::InvalidMoveFormat);
        },
    };
    let src = match parse_position(mv.get_char(0), mv.get_char(1)) {
        Some(p) => p,
        None => {
            return Err(ParseError::InvalidMoveFormat);
        },
    };
    let dst = match parse_position(mv.get_char(2), mv.get_char(3)) {
        Some(p) => p,
        None => {
            return Err(ParseError::InvalidMoveFormat);
        },
    };
    assert(message[1]@ == f[1]);
    let game_state = match parse_game_state(message[1]) {
        Some(g) => g,
        None => {
            return Err(ParseError::InvalidGameState);
        },
    };
    assert(message[2]@ == f[2]);
    let board = match parse_fen(message[2]) {
        Ok(b) => b,
        Err(e) => {
            return Err(e);
        },
    };
    Ok(MessageMove { board, mv: (src, dst), prom_piece, game_state })
}

/// Decodes a frame into a message.
pub fn parse(message: &str) -> (r: Result<Message, ParseError>)
    ensures
        message_result(r) == message_of(message@),
{
    if message.as_bytes().len() > FRAME_LEN {
        return Err(ParseError::TooLong);
    }
    let mut fields = split_fields_exec(message);
    proof {
        lemma_split_nonempty(message@);
    }
    let ghost all = split_fields(message@);
    let msg_id = fields.remove(0);
    assert(msg_id@ == all[0]);
    assert(text_views(fields@) =~= all.drop_first());
    let is_move = same_text(msg_id, "ChessMOVE");
    let is_quit = same_text(msg_id, "ChessQUIT");
    proof {
        reveal_strlit("ChessMOVE");
        reveal_strlit("ChessQUIT");
        assert("ChessMOVE"@ =~= move_tag());
        assert("ChessQUIT"@ =~= quit_tag());
    }
    if is_move {
        match parse_message_move(fields.as_slice()) {
            Ok(m) => Ok(Message::Move(m)),
            Err(e) => Err(e),
        }
    } else if is_quit {
        match parse_message_quit(fields.as_slice()) {
            Ok(s) => Ok(Message::Quit(s)),
            Err(e) => Err(e),
        }
    } else {
        Err(ParseError::UnknownMessageType)
    }
}

} // verus!
