use vstd::prelude::*;

verus! {

/// Side that owns a piece.
#[derive(Clone, Copy, PartialEq, Eq, Structural, Debug, Hash)]
pub enum Color {
    White,
    Black,
}

/// Kind of a chess piece.
#[derive(Clone, Copy, PartialEq, Eq, Structural, Debug, Hash)]
pub enum PieceKind {
    Pawn,
    Knight,
    Bishop,
    Rook,
    Queen,
    King,
}

#[derive(Clone, Copy, PartialEq, Eq, Structural, Debug, Hash)]
pub struct Piece {
    pub color: Color,
    pub kind: PieceKind,
}

/// What stands on one square.
#[derive(Clone, Copy, PartialEq, Eq, Structural, Debug, Hash)]
pub enum Slot {
    Empty,
    Occupied(Piece),
}

/// Number of files (and of ranks) on the board.
pub const BOARD_LEN: usize = 8;

/// Number of squares on the board.
pub const BOARD_SIZE: usize = 64;

/// A square, given by its file (`column`) and rank (`row`), both in `0..8`.
#[derive(Clone, Copy, PartialEq, Eq, Structural, Debug, Hash)]
pub struct Position {
    column: u8,
    row: u8,
}

impl Position {
    #[verifier::type_invariant]
    spec fn in_range(self) -> bool {
        self.column < 8 && self.row < 8
    }

    pub closed spec fn spec_column(&self) -> u8 {
        self.column
    }

    pub closed spec fn spec_row(&self) -> u8 {
        self.row
    }

    pub fn new(column: u8, row: u8) -> (r: Option<Position>)
        ensures
            r is Some <==> (column < 8 && row < 8),
            r matches Some(p) ==> p.spec_column() == column && p.spec_row() == row,
    {
        if column < 8 && row < 8 {
            Some(Position { column, row })
        } else {
            None
        }
    }

    #[verifier::when_used_as_spec(spec_column)]
    pub fn column(&self) -> (r: u8)
        ensures
            r == self.spec_column(),
            r < 8,
    {
        proof {
            use_type_invariant(self);
        }
        self.column
    }

    #[verifier::when_used_as_spec(spec_row)]
    pub fn row(&self) -> (r: u8)
        ensures
            r == self.spec_row(),
            r < 8,
    {
        proof {
            use_type_invariant(self);
        }
        self.row
    }
}

/// An 8x8 board. The square of file `f` and rank `r` is `squares[8 * r + f]`.
#[derive(Clone, Copy, PartialEq, Eq, Debug)]
pub struct Board {
    pub squares: [Slot; 64],
}

impl View for Board {
    type V = Seq<Slot>;

    open spec fn view(&self) -> Seq<Slot> {
        self.squares@
    }
}

/// Index of a position in the square sequence of a board.
pub open spec fn square_index(p: Position) -> int {
    p.spec_row() as int * 8 + p.spec_column() as int
}

/// The squares of a board on which nothing stands.
pub open spec fn empty_squares() -> Seq<Slot> {
    Seq::new(64, |i: int| Slot::Empty)
}

impl Board {
    pub fn new_empty() -> (r: Board)
        ensures
            r@ == empty_squares(),
    {
        let r = Board { squares: [Slot::Empty; 64] };
        assert(r@ =~= empty_squares());
        r
    }

    pub fn at_position(&self, pos: Position) -> (r: Slot)
        ensures
            r == self@[square_index(pos)],
    {
        let i = pos.row() as usize * 8 + pos.column() as usize;
        self.squares[i]
    }

    /// Puts `slot` on the square of `pos`.
    pub fn set_position(&mut self, pos: Position, slot: Slot)
        ensures
            final(self)@ == old(self)@.update(square_index(pos), slot),
    {
        let i = pos.row() as usize * 8 + pos.column() as usize;
        self.squares[i] = slot;
    }
}

} // verus!
