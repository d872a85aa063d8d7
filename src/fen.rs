use vstd::prelude::*;
use crate::board::{empty_squares, Board, Color, Piece, PieceKind, Slot};
use crate::protocol::ParseError;
use crate::text::push_char;

verus! {

/// Letter of a piece kind in upper case.
pub open spec fn kind_letter(k: PieceKind) -> char {
    match k {
        PieceKind::Pawn => 'P',
        PieceKind::Knight => 'N',
        PieceKind::Bishop => 'B',
        PieceKind::Rook => 'R',
        PieceKind::Queen => 'Q',
        PieceKind::King => 'K',
    }
}

/// Letter of a piece kind in lower case.
pub open spec fn kind_letter_lower(k: PieceKind) -> char {
    match k {
        PieceKind::Pawn => 'p',
        PieceKind::Knight => 'n',
        PieceKind::Bishop => 'b',
        PieceKind::Rook => 'r',
        PieceKind::Queen => 'q',
        PieceKind::King => 'k',
    }
}

/// Letter of a piece: upper case for White, lower case for Black.
pub open spec fn piece_char(p: Piece) -> char {
    match p.color {
        Color::White => kind_letter(p.kind),
        Color::Black => kind_letter_lower(p.kind),
    }
}

/// The piece that a board letter stands for, in either case.
pub open spec fn piece_of_char(c: char) -> Option<Piece> {
    let white = |k: PieceKind| Some(Piece { color: Color::White, kind: k });
    let black = |k: PieceKind| Some(Piece { color: Color::Black, kind: k });
    match c {
        'P' => white(PieceKind::Pawn),
        'N' => white(PieceKind::Knight),
        'B' => white(PieceKind::Bishop),
        'R' => white(PieceKind::Rook),
        'Q' => white(PieceKind::Queen),
        'K' => white(PieceKind::King),
        'p' => black(PieceKind::Pawn),
        'n' => black(PieceKind::Knight),
        'b' => black(PieceKind::Bishop),
        'r' => black(PieceKind::Rook),
        'q' => black(PieceKind::Queen),
        'k' => black(PieceKind::King),
        _ => None,
    }
}

/// Value of a decimal digit.
pub open spec fn digit_value(c: char) -> Option<nat> {
    if '0' <= c && c <= '9' {
        Some((c as u32 - '0' as u32) as nat)
    } else {
        None
    }
}

/// The digit that writes a run of `n` empty squares, `1 <= n <= 8`.
pub open spec fn digit_char(n: nat) -> char {
    if n == 1 {
        '1'
    } else if n == 2 {
        '2'
    } else if n == 3 {
        '3'
    } else if n == 4 {
        '4'
    } else if n == 5 {
        '5'
    } else if n == 6 {
        '6'
    } else if n == 7 {
        '7'
    } else {
        '8'
    }
}

/// A run of `n` empty squares: nothing when `n` is zero, else one digit.
pub open spec fn run_text(n: nat) -> Seq<char> {
    if n == 0 {
        seq![]
    } else {
        seq![digit_char(n)]
    }
}

/// Text of the squares of a rank, from left to right, after `run` empty squares
/// that are not written yet.
pub open spec fn rank_text(squares: Seq<Slot>, run: nat) -> Seq<char>
    decreases squares.len(),
{
    if squares.len() == 0 {
        run_text(run)
    } else {
        match squares[0] {
            Slot::Empty => rank_text(squares.drop_first(), run + 1),
            Slot::Occupied(p) => run_text(run) + seq![piece_char(p)] + rank_text(
                squares.drop_first(),
                0,
            ),
        }
    }
}

/// The eight squares of rank `r`, file 0 first.
pub open spec fn rank_squares(b: Seq<Slot>, r: int) -> Seq<Slot> {
    b.subrange(8 * r, 8 * r + 8)
}

/// Text of ranks `0..n`, joined by `/`.
pub open spec fn ranks_text(b: Seq<Slot>, n: nat) -> Seq<char>
    decreases n,
{
    if n == 0 {
        seq![]
    } else if n == 1 {
        rank_text(rank_squares(b, 0), 0)
    } else {
        ranks_text(b, (n - 1) as nat) + seq!['/'] + rank_text(rank_squares(b, n - 1), 0)
    }
}

/// Text of a whole board: its eight ranks, rank 0 first, joined by `/`.
pub open spec fn board_text(b: Seq<Slot>) -> Seq<char> {
    ranks_text(b, 8)
}

/// Reads a board text from the left. `seps` separators have been read, `filled`
/// squares have been passed, and `squares` holds the pieces placed so far.
pub open spec fn fen_scan(s: Seq<char>, seps: nat, filled: nat, squares: Seq<Slot>) -> Result<
    Seq<Slot>,
    ParseError,
>
    decreases s.len(),
{
    if s.len() == 0 {
        if filled == 64 {
            Ok(squares)
        } else {
            Err(ParseError::InvalidFENLength)
        }
    } else {
        let c = s[0];
        let rest = s.drop_first();
        if c == '/' {
            if seps >= 7 {
                Err(ParseError::InvalidFENLength)
            } else {
                fen_scan(rest, seps + 1, filled, squares)
            }
        } else if digit_value(c) is Some {
            let d = digit_value(c)->0;
            if filled + d > 64 {
                Err(ParseError::InvalidFENLength)
            } else {
                fen_scan(rest, seps, filled + d, squares)
            }
        } else {
            match piece_of_char(c) {
                None => Err(ParseError::InvalidFENChar),
                Some(p) => if filled >= 64 {
                    Err(ParseError::InvalidFENLength)
                } else {
                    fen_scan(rest, seps, filled + 1, squares.update(filled as int, Slot::Occupied(p)))
                },
            }
        }
    }
}

/// The squares that a board text describes, or why it describes none.
pub open spec fn fen_decode(s: Seq<char>) -> Result<Seq<Slot>, ParseError> {
    fen_scan(s, 0, 0, empty_squares())
}

fn run_digit(n: u8) -> (c: char)
    requires
        1 <= n <= 8,
    ensures
        c == digit_char(n as nat),
{
    match n {
        1 => '1',
        2 => '2',
        3 => '3',
        4 => '4',
        5 => '5',
        6 => '6',
        7 => '7',
        _ => '8',
    }
}

/// Letter of a piece: upper case for White, lower case for Black.
pub fn serialize_piece(piece: Piece) -> (c: char)
    ensures
        c == piece_char(piece),
{
    match piece.color {
        Color::White => match piece.kind {
            PieceKind::Pawn => 'P',
            PieceKind::Knight => 'N',
            PieceKind::Bishop => 'B',
            PieceKind::Rook => 'R',
            PieceKind::Queen => 'Q',
            PieceKind::King => 'K',
        },
        Color::Black => match piece.kind {
            PieceKind::Pawn => 'p',
            PieceKind::Knight => 'n',
            PieceKind::Bishop => 'b',
            PieceKind::Rook => 'r',
            PieceKind::Queen => 'q',
            PieceKind::King => 'k',
        },
    }
}

/// The piece that a board letter stands for, in either case.
pub fn piece_from_char(c: char) -> (r: Option<Piece>)
    ensures
        r == piece_of_char(c),
{
    let color = if c >= 'a' && c <= 'z' {
        Color::Black
    } else {
        Color::White
    };
    let kind = match c {
        'P' | 'p' => PieceKind::Pawn,
        'N' | 'n' => PieceKind::Knight,
        'B' | 'b' => PieceKind::Bishop,
        'R' | 'r' => PieceKind::Rook,
        'Q' | 'q' => PieceKind::Queen,
        'K' | 'k' => PieceKind::King,
        _ => return None,
    };
    Some(Piece { color, kind })
}

/// Writes a board as its eight ranks, rank 0 first, joined by `/`. In a rank
/// each run of empty squares is one digit and each piece one letter.
pub fn serialize_board(board: &Board) -> (r: String)
    ensures
        r@ == board_text(board@),
{
    let mut out = String::new();
    let mut rank: usize = 0;
    while rank < 8
        invariant
            rank <= 8,
            board@.len() == 64,
            out@ == ranks_text(board@, rank as nat),
        decreases 8 - rank,
    {
        if rank > 0 {
            push_char(&mut out, '/');
        }
        let ghost base = out@;
        let ghost row = rank_squares(board@, rank as int);
        let mut empty_count: u8 = 0;
        let mut file: usize = 0;
        assert(row.subrange(0, 8) =~= row);
        while file < 8
            invariant
                rank < 8,
                file <= 8,
                empty_count as int <= file,
                board@.len() == 64,
                row == rank_squares(board@, rank as int),
                out@ + rank_text(row.subrange(file as int, 8), empty_count as nat) == base
                    + rank_text(row, 0),
            decreases 8 - file,
        {
            let slot = board.squares[rank * 8 + file];
            let ghost tail = row.subrange(file as int, 8);
            let ghost next = row.subrange(file + 1, 8);
            assert(tail[0] == slot);
            assert(tail.drop_first() =~= next);
            match slot {
                Slot::Occupied(piece) => {
                    let ghost before = out@;
                    if empty_count > 0 {
                        push_char(&mut out, run_digit(empty_count));
                    }
                    assert(out@ =~= before + run_text(empty_count as nat));
                    push_char(&mut out, serialize_piece(piece));
                    assert(out@ + rank_text(next, 0) =~= before + (run_text(empty_count as nat)
                        + seq![piece_char(piece)] + rank_text(next, 0)));
                    empty_count = 0;
                },
                Slot::Empty => {
                    empty_count = empty_count + 1;
                },
            }
            file = file + 1;
        }
        let ghost before = out@;
        if empty_count > 0 {
            push_char(&mut out, run_digit(empty_count));
        }
        assert(row.subrange(8, 8).len() == 0);
        assert(out@ =~= before + run_text(empty_count as nat));
        assert(out@ =~= base + rank_text(row, 0));
        rank = rank + 1;
    }
    out
}

/// Reads a board text: digits skip empty squares and letters place pieces, from
/// file 0 of rank 0 on. It fails on a character that is neither, on more than
/// eight ranks, and unless exactly 64 squares are covered.
pub fn parse_fen(fen: &str) -> (r: Result<Board, ParseError>)
    ensures
        match r {
            Ok(b) => fen_decode(fen@) == Ok::<Seq<Slot>, ParseError>(b@),
            Err(e) => fen_decode(fen@) == Err::<Seq<Slot>, ParseError>(e),
        },
{
    let mut board = Board::new_empty();
    let n = fen.unicode_len();
    let mut i: usize = 0;
    let mut seps: usize = 0;
    let mut filled: usize = 0;
    assert(fen@.subrange(0, n as int) =~= fen@);
    while i < n
        invariant
            n == fen@.len(),
            i <= n,
            seps <= 7,
            filled <= 64,
            fen_scan(fen@.subrange(i as int, n as int), seps as nat, filled as nat, board@)
                == fen_decode(fen@),
        decreases n - i,
    {
        let c = fen.get_char(i);
        let ghost s = fen@.subrange(i as int, n as int);
        assert(s[0] == c);
        assert(s.drop_first() =~= fen@.subrange(i + 1, n as int));
        if c == '/' {
            if seps >= 7 {
                return Err(ParseError::InvalidFENLength);
            }
            seps = seps + 1;
        } else if c >= '0' && c <= '9' {
            let d = (c as u32 - '0' as u32) as usize;
            if filled + d > 64 {
                return Err(ParseError::InvalidFENLength);
            }
            filled = filled + d;
        } else {
            match piece_from_char(c) {
                None => {
                    return Err(ParseError::InvalidFENChar);
                },
                Some(p) => {
                    if filled >= 64 {
                        return Err(ParseError::InvalidFENLength);
                    }
                    board.squares[filled] = Slot::Occupied(p);
                    filled = filled + 1;
                },
            }
        }
        i = i + 1;
    }
    assert(fen@.subrange(n as int, n as int).len() == 0);
    if filled != 64 {
        return Err(ParseError::InvalidFENLength);
    }
    Ok(board)
}

/// The squares of `b` below index `n`, and nothing from `n` on.
pub open spec fn partial_squares(b: Seq<Slot>, n: int) -> Seq<Slot> {
    Seq::new(64, |i: int| if i < n { b[i] } else { Slot::Empty })
}

/// A character that a board text may hold.
pub open spec fn is_board_char(c: char) -> bool {
    c == '/' || digit_value(c) is Some || piece_of_char(c) is Some
}

/// Every character of `s` may stand in a board text.
pub open spec fn board_chars(s: Seq<char>) -> bool {
    forall|i: int| 0 <= i < s.len() ==> is_board_char(#[trigger] s[i])
}

proof fn lemma_rank_scan(b: Seq<Slot>, p: int, e: int, k: nat, rest: Seq<char>, seps: nat)
    requires
        b.len() == 64,
        0 <= k <= p <= e <= 64,
        e - p + k <= 8,
        forall|i: int| p - k <= i < p ==> b[i] == Slot::Empty,
    ensures
        fen_scan(rank_text(b.subrange(p, e), k) + rest, seps, (p - k) as nat, partial_squares(b, p - k))
            == fen_scan(rest, seps, e as nat, partial_squares(b, e)),
    decreases e - p,
{
    let sq = b.subrange(p, e);
    if p == e {
        assert(sq.len() == 0);
        if k == 0 {
            assert(run_text(0) + rest =~= rest);
        } else {
            let t = seq![digit_char(k)] + rest;
            assert(t[0] == digit_char(k));
            assert(t.drop_first() =~= rest);
            assert(digit_value(digit_char(k)) == Some(k));
            assert(partial_squares(b, p - k) =~= partial_squares(b, e));
        }
    } else {
        assert(sq[0] == b[p]);
        assert(sq.drop_first() =~= b.subrange(p + 1, e));
        match b[p] {
            Slot::Empty => {
                lemma_rank_scan(b, p + 1, e, k + 1, rest, seps);
            },
            Slot::Occupied(q) => {
                let tail = rank_text(b.subrange(p + 1, e), 0) + rest;
                lemma_rank_scan(b, p + 1, e, 0, rest, seps);
                let t2 = seq![piece_char(q)] + tail;
                assert(rank_text(sq, k) + rest =~= run_text(k) + t2);
                assert(t2[0] == piece_char(q));
                assert(t2.drop_first() =~= tail);
                assert(piece_of_char(piece_char(q)) == Some(q));
                assert(partial_squares(b, p).update(p, Slot::Occupied(q)) =~= partial_squares(
                    b,
                    p + 1,
                ));
                assert(fen_scan(t2, seps, p as nat, partial_squares(b, p)) == fen_scan(
                    tail,
                    seps,
                    (p + 1) as nat,
                    partial_squares(b, p + 1),
                ));
                if k > 0 {
                    let t1 = run_text(k) + t2;
                    assert(t1[0] == digit_char(k));
                    assert(t1.drop_first() =~= t2);
                    assert(digit_value(digit_char(k)) == Some(k));
                    assert(partial_squares(b, p - k) =~= partial_squares(b, p));
                    assert(fen_scan(t1, seps, (p - k) as nat, partial_squares(b, p - k))
                        == fen_scan(t2, seps, p as nat, partial_squares(b, p)));
                } else {
                    assert(run_text(0) + t2 =~= t2);
                }
            },
        }
    }
}

proof fn lemma_ranks_scan(b: Seq<Slot>, n: nat, rest: Seq<char>)
    requires
        b.len() == 64,
        1 <= n <= 8,
    ensures
        fen_scan(ranks_text(b, n) + rest, 0, 0, empty_squares()) == fen_scan(
            rest,
            (n - 1) as nat,
            8 * n,
            partial_squares(b, 8 * n as int),
        ),
    decreases n,
{
    if n == 1 {
        assert(partial_squares(b, 0) =~= empty_squares());
        lemma_rank_scan(b, 0, 8, 0, rest, 0);
    } else {
        let row = rank_text(rank_squares(b, n - 1), 0);
        let tail = seq!['/'] + row + rest;
        assert(ranks_text(b, n) + rest =~= ranks_text(b, (n - 1) as nat) + tail);
        lemma_ranks_scan(b, (n - 1) as nat, tail);
        assert(tail[0] == '/');
        assert(tail.drop_first() =~= row + rest);
        lemma_rank_scan(b, 8 * (n - 1), 8 * n as int, 0, rest, (n - 1) as nat);
    }
}

/// Reading the text of a board gives back its squares.
pub proof fn lemma_board_round_trip(b: Seq<Slot>)
    requires
        b.len() == 64,
    ensures
        fen_decode(board_text(b)) == Ok::<Seq<Slot>, ParseError>(b),
{
    lemma_ranks_scan(b, 8, seq![]);
    assert(board_text(b) + seq![] =~= board_text(b));
    assert(partial_squares(b, 64) =~= b);
}

proof fn lemma_rank_text_shape(sq: Seq<Slot>, k: nat)
    requires
        sq.len() + k <= 8,
    ensures
        rank_text(sq, k).len() <= sq.len() + k,
        board_chars(rank_text(sq, k)),
    decreases sq.len(),
{
    if sq.len() == 0 {
        if k > 0 {
            assert(digit_value(digit_char(k)) == Some(k));
        }
    } else {
        match sq[0] {
            Slot::Empty => {
                lemma_rank_text_shape(sq.drop_first(), k + 1);
            },
            Slot::Occupied(p) => {
                lemma_rank_text_shape(sq.drop_first(), 0);
                if k > 0 {
                    assert(digit_value(digit_char(k)) == Some(k));
                }
                assert(piece_of_char(piece_char(p)) == Some(p));
                let t = run_text(k) + seq![piece_char(p)];
                assert(board_chars(t));
            },
        }
    }
}

proof fn lemma_ranks_text_shape(b: Seq<Slot>, n: nat)
    requires
        b.len() == 64,
        1 <= n <= 8,
    ensures
        ranks_text(b, n).len() <= 9 * n - 1,
        board_chars(ranks_text(b, n)),
    decreases n,
{
    lemma_rank_text_shape(rank_squares(b, n - 1), 0);
    if n > 1 {
        lemma_ranks_text_shape(b, (n - 1) as nat);
        let t = ranks_text(b, (n - 1) as nat) + seq!['/'];
        assert(board_chars(t));
    }
}

/// A board text has at most 71 characters, each a separator, a digit or a
/// piece letter.
pub proof fn lemma_board_text_shape(b: Seq<Slot>)
    requires
        b.len() == 64,
    ensures
        board_text(b).len() <= 71,
        board_chars(board_text(b)),
{
    lemma_ranks_text_shape(b, 8);
}

} // verus!
