use vstd::prelude::*;

verus! {

/// A square of the board.
#[derive(Clone, Copy, Debug, PartialEq, Eq, Structural)]
pub struct Piece {
    pub x: usize,
    pub y: usize,
}

/// The moves of checkers.
#[derive(Clone, Copy, Debug, PartialEq, Eq, Structural)]
pub enum MoveType {
    /// Move the piece on `from` to `to`.
    MovePiece { from: Piece, to: Piece },
    /// Give the game up.
    Resign,
}

impl MoveType {
    /// One example of each kind of move, for a client to show.
    pub fn describe() -> (examples: Vec<MoveType>)
        ensures
            examples@ == seq![
                MoveType::MovePiece { from: Piece { x: 0, y: 0 }, to: Piece { x: 1, y: 1 } },
                MoveType::Resign,
            ],
    {
        let mut examples: Vec<MoveType> = Vec::new();
        examples.push(MoveType::MovePiece { from: Piece { x: 0, y: 0 }, to: Piece { x: 1, y: 1 } });
        examples.push(MoveType::Resign);
        assert(examples@ =~= seq![
            MoveType::MovePiece { from: Piece { x: 0, y: 0 }, to: Piece { x: 1, y: 1 } },
            MoveType::Resign,
        ]);
        examples
    }
}

} // verus!
