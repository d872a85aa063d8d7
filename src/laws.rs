use vstd::prelude::*;
use vstd::utf8::{
    decode_utf8, encode_utf8, encode_utf8_decode_utf8, encode_utf8_valid_utf8, is_ascii_chars,
    is_ascii_chars_encode_utf8, valid_utf8,
};
use crate::network::receive_spec;
use crate::board::{PieceKind, Position, Slot};
use crate::board::empty_squares;
use crate::fen::{
    board_chars, board_text, digit_value, fen_decode, fen_scan, is_board_char, lemma_board_round_trip,
    lemma_board_text_shape, piece_of_char,
};
use crate::protocol::{
    byte_len, file_char, frame_of, lemma_move_body_shape, message_of, move_body, move_model, move_tag,
    move_text, pad_frame, position_model, prom_char, prom_of, quit_body, quit_tag, rank_char,
    lemma_split_nonempty, move_of_fields, split_fields, square_of, state_of, state_text, zeros, GameState, MessageModel, MessageMove,
    ParseError, SerializeError, FRAME_LEN,
};
use crate::text::lemma_utf8_concat;

verus! {

/// No character of `s` is the field separator.
pub open spec fn no_colon(s: Seq<char>) -> bool {
    forall|i: int| 0 <= i < s.len() ==> #[trigger] s[i] != ':'
}

/// Both coordinates of a position are below 8.
pub open spec fn position_valid(p: Position) -> bool {
    p.spec_column() < 8 && p.spec_row() < 8
}

/// A move message that can be sent: its squares exist and its promotion, if
/// any, is to a knight, bishop, rook or queen.
pub open spec fn valid_move(m: MessageMove) -> bool {
    &&& position_valid(m.mv.0)
    &&& position_valid(m.mv.1)
    &&& prom_char(m.prom_piece) is Some
}

proof fn lemma_split_plain(y: Seq<char>)
    requires
        no_colon(y),
    ensures
        split_fields(y) == seq![y],
    decreases y.len(),
{
    if y.len() == 0 {
        assert(y =~= Seq::<char>::empty());
        assert(split_fields(y) =~= seq![y]);
    } else {
        let init = y.drop_last();
        lemma_split_plain(init);
        assert(y.last() == y[y.len() - 1]);
        assert(y.last() != ':');
        assert(init.push(y.last()) =~= y);
        assert(y.drop_last() == init);
        let prev = split_fields(init);
        assert(split_fields(y) == prev.update(prev.len() - 1, prev.last().push(y.last())));
        assert(split_fields(y) =~= seq![y]);
    }
}

proof fn lemma_split_field(x: Seq<char>, y: Seq<char>)
    requires
        no_colon(y),
    ensures
        split_fields(x + seq![':'] + y) == split_fields(x).push(y),
    decreases y.len(),
{
    let s = x + seq![':'] + y;
    if y.len() == 0 {
        assert(y =~= Seq::<char>::empty());
        assert(s.drop_last() =~= x);
        assert(s =~= x + seq![':']);
        assert(split_fields(s) =~= split_fields(x).push(y));
    } else {
        let y0 = y.drop_last();
        lemma_split_field(x, y0);
        assert(s.drop_last() =~= x + seq![':'] + y0);
        assert(s.last() == y.last());
        assert(y.last() == y[y.len() - 1]);
        assert(y.last() != ':');
        assert(y0.push(y.last()) =~= y);
        let prev = split_fields(x + seq![':'] + y0);
        assert(split_fields(s) == prev.update(prev.len() - 1, prev.last().push(s.last())));
        assert(split_fields(s) =~= split_fields(x).push(y));
    }
}

proof fn lemma_zeros_shape(n: nat)
    ensures
        is_ascii_chars(zeros(n)),
        no_colon(zeros(n)),
        byte_len(zeros(n)) == n,
{
    is_ascii_chars_encode_utf8(zeros(n));
}

proof fn lemma_state_round_trip(g: GameState)
    ensures
        state_of(state_text(g)) == Some(g),
        state_text(g).len() == 3,
        no_colon(state_text(g)),
{
    let on = state_text(GameState::Ongoing);
    let ww = state_text(GameState::WinWhite);
    let wb = state_text(GameState::WinBlack);
    assert(on[0] != ww[0]);
    assert(on[2] != wb[2]);
    assert(ww[2] != wb[2]);
    assert(ww[0] != wb[0]);
    assert(state_text(GameState::Draw)[0] != on[0]);
    assert(state_text(GameState::Draw)[2] != ww[2]);
    assert(state_text(GameState::Draw)[0] != wb[0]);
}

/// A valid move message is encoded into a frame of exactly 128 bytes, and
/// decoding that frame gives the message back.
pub proof fn lemma_move_round_trip(m: MessageMove)
    requires
        valid_move(m),
    ensures
        frame_of(move_model(m)) is Ok,
        byte_len(frame_of(move_model(m))->Ok_0) == FRAME_LEN,
        message_of(frame_of(move_model(m))->Ok_0) == Ok::<MessageModel, ParseError>(
            move_model(m),
        ),
{
    let src = position_model(m.mv.0);
    let dst = position_model(m.mv.1);
    let c = prom_char(m.prom_piece)->0;
    let board = m.board@;
    let g = m.game_state;
    let body = move_body(board, src, dst, c, g);
    lemma_move_body_shape(board, src, dst, c, g);
    is_ascii_chars_encode_utf8(body);
    let k = (FRAME_LEN - byte_len(body)) as nat;
    let frame = pad_frame(body);
    lemma_zeros_shape(k);
    lemma_utf8_concat(body, zeros(k));

    let mvt = move_text(src, dst, c);
    let st = state_text(g);
    let bt = board_text(board);
    assert(no_colon(move_tag()));
    assert(no_colon(mvt));
    lemma_state_round_trip(g);
    lemma_board_text_shape(board);
    assert forall|i: int| 0 <= i < bt.len() implies #[trigger] bt[i] != ':' by {
        assert(is_board_char(bt[i]));
    }
    let sep = seq![':'];
    let p1 = move_tag() + sep + mvt;
    let p2 = p1 + sep + st;
    let p3 = p2 + sep + bt;
    assert(frame =~= p3 + sep + zeros(k));
    lemma_split_plain(move_tag());
    lemma_split_field(move_tag(), mvt);
    lemma_split_field(p1, st);
    lemma_split_field(p2, bt);
    lemma_split_field(p3, zeros(k));
    let f = split_fields(frame);
    assert(f =~= seq![move_tag(), mvt, st, bt, zeros(k)]);
    assert(f.drop_first() =~= seq![mvt, st, bt, zeros(k)]);
    assert(mvt =~= seq![file_char(src.0), rank_char(src.1), file_char(dst.0), rank_char(dst.1), c]);
    assert(square_of(mvt[0], mvt[1]) == Some(src));
    assert(square_of(mvt[2], mvt[3]) == Some(dst));
    assert(prom_of(c) == Some(m.prom_piece));
    lemma_board_round_trip(board);
}

/// A quit message whose reason holds no `:` and fits in a frame is encoded
/// into a frame of exactly 128 bytes, and decoding that frame gives the reason
/// back.
pub proof fn lemma_quit_round_trip(reason: Seq<char>)
    requires
        no_colon(reason),
        byte_len(quit_body(reason)) <= FRAME_LEN,
    ensures
        frame_of(MessageModel::Quit(reason)) is Ok,
        byte_len(frame_of(MessageModel::Quit(reason))->Ok_0) == FRAME_LEN,
        message_of(frame_of(MessageModel::Quit(reason))->Ok_0) == Ok::<MessageModel, ParseError>(
            MessageModel::Quit(reason),
        ),
{
    let body = quit_body(reason);
    let k = (FRAME_LEN - byte_len(body)) as nat;
    let frame = pad_frame(body);
    lemma_zeros_shape(k);
    lemma_utf8_concat(body, zeros(k));
    assert(no_colon(quit_tag()));
    let sep = seq![':'];
    let p1 = quit_tag() + sep + reason;
    assert(frame =~= p1 + sep + zeros(k));
    lemma_split_plain(quit_tag());
    lemma_split_field(quit_tag(), reason);
    lemma_split_field(p1, zeros(k));
    let f = split_fields(frame);
    assert(f =~= seq![quit_tag(), reason, zeros(k)]);
    assert(f.drop_first() =~= seq![reason, zeros(k)]);
    assert(quit_tag()[5] != move_tag()[5]);
}

proof fn lemma_split_grow(x: Seq<char>, y: Seq<char>)
    ensures
        split_fields(x + y).len() >= split_fields(x).len(),
        forall|j: int|
            0 <= j < split_fields(x).len() - 1 ==> #[trigger] split_fields(x + y)[j]
                == split_fields(x)[j],
    decreases y.len(),
{
    lemma_split_nonempty(x);
    if y.len() == 0 {
        assert(x + y =~= x);
    } else {
        let y0 = y.drop_last();
        lemma_split_grow(x, y0);
        lemma_split_nonempty(x + y0);
        assert((x + y).drop_last() =~= x + y0);
    }
}

proof fn lemma_split_colon(x: Seq<char>)
    ensures
        split_fields(x + seq![':']) == split_fields(x).push(Seq::<char>::empty()),
{
    assert((x + seq![':']).drop_last() =~= x);
    assert((x + seq![':']).last() == ':');
}

/// Any text longer than a frame in bytes is refused as too long, whatever it
/// holds.
pub proof fn lemma_long_text_rejected(s: Seq<char>)
    requires
        byte_len(s) > FRAME_LEN,
    ensures
        message_of(s) == Err::<MessageModel, ParseError>(ParseError::TooLong),
{
}

/// A text that fits in a frame and whose first field is neither tag is refused
/// as of an unknown type.
pub proof fn lemma_unknown_tag_rejected(s: Seq<char>)
    requires
        byte_len(s) <= FRAME_LEN,
        split_fields(s)[0] != move_tag(),
        split_fields(s)[0] != quit_tag(),
    ensures
        message_of(s) == Err::<MessageModel, ParseError>(ParseError::UnknownMessageType),
{
}

/// A quit frame whose reason holds a `:` splits into too many fields and is
/// refused, however much padding follows.
pub proof fn lemma_quit_colon_rejected(reason: Seq<char>, k: nat)
    requires
        exists|i: int| 0 <= i < reason.len() && reason[i] == ':',
        byte_len(quit_body(reason) + zeros(k)) <= FRAME_LEN,
    ensures
        message_of(quit_body(reason) + zeros(k)) == Err::<MessageModel, ParseError>(
            ParseError::WrongAmountOfFields,
        ),
{
    let j = choose|i: int| 0 <= i < reason.len() && reason[i] == ':';
    let r1 = reason.subrange(0, j);
    let r2 = reason.subrange(j + 1, reason.len() as int);
    let sep = seq![':'];
    assert(reason =~= r1 + sep + r2);
    assert(no_colon(quit_tag()));
    lemma_split_plain(quit_tag());
    let a = quit_tag() + sep;
    lemma_split_colon(quit_tag());
    lemma_split_grow(a, r1);
    let b = a + r1;
    lemma_split_colon(b);
    let c = b + sep;
    lemma_split_grow(c, r2);
    lemma_split_colon(c + r2);
    let d = c + r2 + sep;
    lemma_split_grow(d, zeros(k));
    let frame = quit_body(reason) + zeros(k);
    assert(frame =~= d + zeros(k));
    let f = split_fields(frame);
    assert(f[0] == quit_tag());
    assert(quit_tag()[5] != move_tag()[5]);
    assert(f.drop_first().len() >= 3);
}

/// After a move tag, a move field of other than five characters is refused as
/// malformed, and a well-formed move with an outcome other than the four codes
/// is refused for its outcome.
pub proof fn lemma_bad_move_fields(f: Seq<Seq<char>>)
    requires
        f.len() == 4,
    ensures
        f[0].len() != 5 ==> move_of_fields(f) == Err::<MessageModel, ParseError>(
            ParseError::InvalidMoveFormat,
        ),
        f[0].len() == 5 && prom_of(f[0][4]) is Some && square_of(f[0][0], f[0][1]) is Some
            && square_of(f[0][2], f[0][3]) is Some && (forall|g: GameState|
            f[1] != #[trigger] state_text(g)) ==> move_of_fields(f) == Err::<
            MessageModel,
            ParseError,
        >(ParseError::InvalidGameState),
{
    if forall|g: GameState| f[1] != #[trigger] state_text(g) {
        assert(f[1] != state_text(GameState::Ongoing));
        assert(f[1] != state_text(GameState::WinWhite));
        assert(f[1] != state_text(GameState::WinBlack));
        assert(f[1] != state_text(GameState::Draw));
    }
}

/// A move that asks for a promotion to a king is never encoded.
pub proof fn lemma_king_promotion_rejected(m: MessageMove)
    requires
        m.prom_piece == Some(PieceKind::King),
    ensures
        frame_of(move_model(m)) == Err::<Seq<char>, SerializeError>(SerializeError::InvalidPromPiece),
{
}

/// A quit reason whose frame would pass 128 bytes is never encoded.
pub proof fn lemma_long_reason_rejected(reason: Seq<char>)
    requires
        byte_len(quit_body(reason)) > FRAME_LEN,
    ensures
        frame_of(MessageModel::Quit(reason)) == Err::<Seq<char>, SerializeError>(
            SerializeError::TooLongQuitMsg,
        ),
{
}

/// The bytes of a valid move message's frame are 128, are valid UTF-8, and
/// their text holds the message.
pub proof fn lemma_move_frame_bytes(m: MessageMove)
    requires
        valid_move(m),
    ensures
        encode_utf8(frame_of(move_model(m))->Ok_0).len() == FRAME_LEN,
        valid_utf8(encode_utf8(frame_of(move_model(m))->Ok_0)),
        message_of(decode_utf8(encode_utf8(frame_of(move_model(m))->Ok_0))) == Ok::<
            MessageModel,
            ParseError,
        >(move_model(m)),
{
    lemma_move_round_trip(m);
    let f = frame_of(move_model(m))->Ok_0;
    encode_utf8_valid_utf8(f);
    encode_utf8_decode_utf8(f);
}

/// The bytes of a quit frame whose reason holds no `:` and fits are 128, are
/// valid UTF-8, and their text holds the reason.
pub proof fn lemma_quit_frame_bytes(reason: Seq<char>)
    requires
        no_colon(reason),
        byte_len(quit_body(reason)) <= FRAME_LEN,
    ensures
        encode_utf8(frame_of(MessageModel::Quit(reason))->Ok_0).len() == FRAME_LEN,
        valid_utf8(encode_utf8(frame_of(MessageModel::Quit(reason))->Ok_0)),
        message_of(decode_utf8(encode_utf8(frame_of(MessageModel::Quit(reason))->Ok_0)))
            == Ok::<MessageModel, ParseError>(MessageModel::Quit(reason)),
{
    lemma_quit_round_trip(reason);
    let f = frame_of(MessageModel::Quit(reason))->Ok_0;
    encode_utf8_valid_utf8(f);
    encode_utf8_decode_utf8(f);
}

/// A frame whose bytes arrive in two reads is held back after the first and
/// handed out whole after the second, with nothing left over.
pub proof fn lemma_frame_in_two_reads(f: Seq<u8>, k: int)
    requires
        f.len() == FRAME_LEN,
        0 < k < FRAME_LEN,
    ensures
        receive_spec(Seq::<u8>::empty(), f.subrange(0, k)) == (None::<Seq<u8>>, f.subrange(0, k)),
        receive_spec(f.subrange(0, k), f.subrange(k, FRAME_LEN as int)) == (
            Some(f),
            Seq::<u8>::empty(),
        ),
{
    assert(Seq::<u8>::empty() + f.subrange(0, k) =~= f.subrange(0, k));
    let all = f.subrange(0, k) + f.subrange(k, FRAME_LEN as int);
    assert(all =~= f);
    assert(all.subrange(0, FRAME_LEN as int) =~= f);
    assert(all.subrange(FRAME_LEN as int, FRAME_LEN as int) =~= Seq::<u8>::empty());
}

/// Number of squares that a board text covers: each digit its value, each
/// piece letter one.
pub open spec fn squares_count(s: Seq<char>) -> nat
    decreases s.len(),
{
    if s.len() == 0 {
        0
    } else {
        let here: nat = if digit_value(s[0]) is Some {
            digit_value(s[0])->0
        } else if piece_of_char(s[0]) is Some {
            1
        } else {
            0
        };
        here + squares_count(s.drop_first())
    }
}

proof fn lemma_scan_count(s: Seq<char>, seps: nat, filled: nat, squares: Seq<Slot>)
    requires
        board_chars(s),
        filled + squares_count(s) != 64,
    ensures
        fen_scan(s, seps, filled, squares) == Err::<Seq<Slot>, ParseError>(
            ParseError::InvalidFENLength,
        ),
    decreases s.len(),
{
    if s.len() > 0 {
        let c = s[0];
        let rest = s.drop_first();
        assert(board_chars(rest)) by {
            assert forall|i: int| 0 <= i < rest.len() implies is_board_char(#[trigger] rest[i]) by {
                assert(rest[i] == s[i + 1]);
            }
        }
        assert(is_board_char(c));
        if c == '/' {
            if seps < 7 {
                lemma_scan_count(rest, seps + 1, filled, squares);
            }
        } else if digit_value(c) is Some {
            let d = digit_value(c)->0;
            if filled + d <= 64 {
                lemma_scan_count(rest, seps, filled + d, squares);
            }
        } else {
            let p = piece_of_char(c)->0;
            if filled < 64 {
                lemma_scan_count(rest, seps, filled + 1, squares.update(filled as int, Slot::Occupied(p)));
            }
        }
    }
}

/// A board text made only of separators, digits and piece letters that covers
/// other than 64 squares is refused for its length; seven full ranks, for
/// one, cover 56.
pub proof fn lemma_board_count_rejected(s: Seq<char>)
    requires
        board_chars(s),
        squares_count(s) != 64,
    ensures
        fen_decode(s) == Err::<Seq<Slot>, ParseError>(ParseError::InvalidFENLength),
{
    lemma_scan_count(s, 0, 0, empty_squares());
}

} // verus!
