pub mod board;
pub mod fen;
pub mod laws;
pub mod network;
pub mod protocol;
mod text;

pub use board::{Board, Color, Piece, PieceKind, Position, Slot, BOARD_LEN, BOARD_SIZE};
pub use fen::{parse_fen, serialize_board};
pub use network::{decode_frame, encode_frame, NetError};
pub use protocol::{
    parse, parse_message_move, parse_message_quit, serialize, serialize_move, serialize_quit,
    GameState, Message, MessageMove, ParseError, SerializeError, FRAME_LEN,
};
