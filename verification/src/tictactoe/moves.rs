use vstd::prelude::*;

verus! {

/// A square of the board.
#[derive(Clone, Copy, Debug, PartialEq, Eq, Structural)]
pub struct Piece {
    pub x: usize,
    pub y: usize,
}

/// The moves of tic-tac-toe.
#[derive(Clone, Copy, Debug, PartialEq, Eq, Structural)]
pub enum MoveType {
    /// Place a mark on `pos`.
    Place { pos: Piece },
}

impl MoveType {
    /// One example of each kind of move, for a client to show.
    pub fn describe() -> (examples: Vec<MoveType>)
        ensures
            examples@ == seq![MoveType::Place { pos: Piece { x: 0, y: 0 } }],
    {
        let mut examples: Vec<MoveType> = Vec::new();
        examples.push(MoveType::Place { pos: Piece { x: 0, y: 0 } });
        assert(examples@ =~= seq![MoveType::Place { pos: Piece { x: 0, y: 0 } }]);
        examples
    }
}

} // verus!
