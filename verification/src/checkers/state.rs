use vstd::prelude::*;
use vstd::string::StringExecFns;
use crate::address::Address;
use crate::game::{Game, GameView, seat_of};
use crate::game_move::{Move, MoveView, clone_moves, move_views};
use super::moves::{MoveType, Piece};

pub use crate::game::{Player, get_current_player};

verus! {

/// The board has `BOARD_SIZE` columns and `BOARD_SIZE` rows.
pub const BOARD_SIZE: usize = 8;

/// What one player has on the board, and how the game ended for that player.
#[derive(Debug, PartialEq, Eq)]
pub struct PlayerState {
    pub pieces: Vec<Piece>,
    pub resigned: bool,
    pub winner: bool,
}

/// What a [`PlayerState`] is to the contracts.
pub struct PlayerStateView {
    pub pieces: Seq<Piece>,
    pub resigned: bool,
    pub winner: bool,
}

impl View for PlayerState {
    type V = PlayerStateView;

    open spec fn view(&self) -> PlayerStateView {
        PlayerStateView { pieces: self.pieces@, resigned: self.resigned, winner: self.winner }
    }
}

/// The state of a game of checkers: the moves made so far and what they left
/// on the board. It is always derived from the moves, never stored.
#[derive(Debug, PartialEq, Eq)]
pub struct GameState {
    pub moves: Vec<Move<MoveType>>,
    pub player_1: PlayerState,
    pub player_2: PlayerState,
}

/// What a [`GameState`] is to the contracts.
pub struct GameStateView {
    pub moves: Seq<MoveView<MoveType>>,
    pub player_1: PlayerStateView,
    pub player_2: PlayerStateView,
}

impl View for GameState {
    type V = GameStateView;

    open spec fn view(&self) -> GameStateView {
        GameStateView {
            moves: move_views(self.moves@),
            player_1: self.player_1@,
            player_2: self.player_2@,
        }
    }
}

/// Whether `square` lies on the board.
pub open spec fn on_board(square: Piece) -> bool {
    square.x < BOARD_SIZE && square.y < BOARD_SIZE
}

/// Whether every one of `pieces` lies on the board.
pub open spec fn all_on_board(pieces: Seq<Piece>) -> bool {
    forall|k: int| 0 <= k < pieces.len() ==> on_board(#[trigger] pieces[k])
}

/// What stands on the square `(x, y)` when player 1 holds `first` and player
/// 2 holds `second`: 0 for nothing, 1 and 2 for a piece of that player. Where
/// both hold the square, player 2 has it.
pub open spec fn occupant(first: Seq<Piece>, second: Seq<Piece>, x: int, y: int) -> u8 {
    if exists|k: int| 0 <= k < second.len() && #[trigger] second[k].x == x && second[k].y == y {
        2
    } else if exists|k: int| 0 <= k < first.len() && #[trigger] first[k].x == x && first[k].y == y {
        1
    } else {
        0
    }
}

/// The squares of the board, column by column: `(0, 0)`, `(0, 1)`, and so on
/// to `(7, 7)`.
pub open spec fn squares() -> Seq<Piece> {
    Seq::new(64, |k: int| Piece { x: (k / 8) as usize, y: (k % 8) as usize })
}

/// What stands on each square of `board`.
pub open spec fn cells(board: [[u8; 8]; 8]) -> spec_fn(int, int) -> u8 {
    |x: int, y: int| board[x][y]
}

/// The test whether a square holds `mark` under the occupancy `at`.
pub open spec fn holding(at: spec_fn(int, int) -> u8, mark: u8) -> spec_fn(Piece) -> bool {
    |square: Piece| at(square.x as int, square.y as int) == mark
}

/// The squares that hold `mark` under the occupancy `at`, in the order of
/// [`squares`].
pub open spec fn squares_holding(at: spec_fn(int, int) -> u8, mark: u8) -> Seq<Piece> {
    squares().filter(holding(at, mark))
}

impl GameStateView {
    /// Every piece lies on the board.
    pub open spec fn wf(self) -> bool {
        all_on_board(self.player_1.pieces) && all_on_board(self.player_2.pieces)
    }

    /// What stands on the square `(x, y)`.
    pub open spec fn at(self, x: int, y: int) -> u8 {
        occupant(self.player_1.pieces, self.player_2.pieces, x, y)
    }

    /// What stands on each square.
    pub open spec fn occupancy(self) -> spec_fn(int, int) -> u8 {
        |x: int, y: int| self.at(x, y)
    }
}

/// One more piece in a player's list changes the occupancy of its square
/// alone: as the last of player 1's pieces it gives the square to player 1
/// unless player 2 holds it, as the last of player 2's it gives it to
/// player 2.
proof fn lemma_occupant_grows(pieces: Seq<Piece>, others: Seq<Piece>, count: int, x: int, y: int)
    requires
        0 <= count < pieces.len(),
    ensures
        occupant(pieces.take(count + 1), others, x, y) == if exists|k: int|
            0 <= k < others.len() && #[trigger] others[k].x == x && others[k].y == y {
            2u8
        } else if pieces[count].x == x && pieces[count].y == y {
            1u8
        } else {
            occupant(pieces.take(count), others, x, y)
        },
        occupant(others, pieces.take(count + 1), x, y) == if pieces[count].x == x
            && pieces[count].y == y {
            2u8
        } else {
            occupant(others, pieces.take(count), x, y)
        },
{
    let grown = pieces.take(count + 1);
    let short = pieces.take(count);
    if pieces[count].x == x && pieces[count].y == y {
        assert(grown[count].x == x && grown[count].y == y);
    } else {
        if exists|k: int| 0 <= k < short.len() && #[trigger] short[k].x == x && short[k].y == y {
            let k = choose|k: int| 0 <= k < short.len() && #[trigger] short[k].x == x && short[k].y == y;
            assert(grown[k].x == x && grown[k].y == y);
        }
        if exists|k: int| 0 <= k < grown.len() && #[trigger] grown[k].x == x && grown[k].y == y {
            let k = choose|k: int| 0 <= k < grown.len() && #[trigger] grown[k].x == x && grown[k].y == y;
            assert(short[k].x == x && short[k].y == y);
        }
    }
}

/// The board of `state` as a matrix, indexed by column and then by row: 0 for
/// an empty square, 1 and 2 for a piece of that player.
pub fn board_sparse_to_dense(state: &GameState) -> (board: [[u8; 8]; 8])
    requires
        state@.wf(),
    ensures
        forall|x: int, y: int|
            0 <= x < 8 && 0 <= y < 8 ==> #[trigger] board[x][y] == state@.at(x, y),
{
    let mut board = [[0u8; 8]; 8];
    let ghost first = state.player_1.pieces@;
    let ghost second = state.player_2.pieces@;
    let ghost none = Seq::<Piece>::empty();
    let mut i: usize = 0;
    while i < state.player_1.pieces.len()
        invariant
            i <= state.player_1.pieces.len(),
            first == state.player_1.pieces@,
            none == Seq::<Piece>::empty(),
            all_on_board(first),
            forall|x: int, y: int|
                0 <= x < 8 && 0 <= y < 8 ==> #[trigger] board[x][y] == occupant(
                    first.take(i as int),
                    none,
                    x,
                    y,
                ),
        decreases state.player_1.pieces.len() - i,
    {
        let piece = state.player_1.pieces[i];
        assert(on_board(first[i as int]));
        board[piece.x][piece.y] = 1;
        assert forall|x: int, y: int| 0 <= x < 8 && 0 <= y < 8 implies #[trigger] board[x][y]
            == occupant(first.take(i as int + 1), none, x, y) by {
            lemma_occupant_grows(first, none, i as int, x, y);
        }
        i = i + 1;
    }
    assert(first.take(i as int) =~= first);
    assert(second.take(0) =~= none);
    let mut j: usize = 0;
    while j < state.player_2.pieces.len()
        invariant
            j <= state.player_2.pieces.len(),
            second == state.player_2.pieces@,
            all_on_board(second),
            forall|x: int, y: int|
                0 <= x < 8 && 0 <= y < 8 ==> #[trigger] board[x][y] == occupant(
                    first,
                    second.take(j as int),
                    x,
                    y,
                ),
        decreases state.player_2.pieces.len() - j,
    {
        let piece = state.player_2.pieces[j];
        assert(on_board(second[j as int]));
        board[piece.x][piece.y] = 2;
        assert forall|x: int, y: int| 0 <= x < 8 && 0 <= y < 8 implies #[trigger] board[x][y]
            == occupant(first, second.take(j as int + 1), x, y) by {
            lemma_occupant_grows(second, first, j as int, x, y);
        }
        j = j + 1;
    }
    assert(second.take(j as int) =~= second);
    board
}

/// The pieces of both players on `board`: the squares that hold 1, and the
/// squares that hold 2, each column by column.
pub fn board_dense_to_sparse(board: [[u8; 8]; 8]) -> (pieces: (Vec<Piece>, Vec<Piece>))
    ensures
        pieces.0@ == squares_holding(cells(board), 1),
        pieces.1@ == squares_holding(cells(board), 2),
{
    let mut player_1_pieces: Vec<Piece> = Vec::new();
    let mut player_2_pieces: Vec<Piece> = Vec::new();
    let ghost ones = holding(cells(board), 1);
    let ghost twos = holding(cells(board), 2);
    proof {
        assert(squares().take(0) =~= Seq::<Piece>::empty());
        squares().take(0).lemma_filter_len(ones);
        squares().take(0).lemma_filter_len(twos);
        assert(squares().take(0).filter(ones) =~= Seq::<Piece>::empty());
        assert(squares().take(0).filter(twos) =~= Seq::<Piece>::empty());
    }
    let mut x: usize = 0;
    while x < 8
        invariant
            x <= 8,
            ones == holding(cells(board), 1),
            twos == holding(cells(board), 2),
            player_1_pieces@ == squares().take(8 * x).filter(ones),
            player_2_pieces@ == squares().take(8 * x).filter(twos),
        decreases 8 - x,
    {
        let mut y: usize = 0;
        while y < 8
            invariant
                x < 8,
                y <= 8,
                ones == holding(cells(board), 1),
                twos == holding(cells(board), 2),
                player_1_pieces@ == squares().take(8 * x + y).filter(ones),
                player_2_pieces@ == squares().take(8 * x + y).filter(twos),
            decreases 8 - y,
        {
            let square = board[x][y];
            proof {
                let k = 8 * x + y;
                let here = Piece { x, y };
                assert(squares()[k] == here);
                assert(squares().take(k + 1) =~= squares().take(k).push(here));
                squares().take(k).lemma_filter_push(here, ones);
                squares().take(k).lemma_filter_push(here, twos);
            }
            if square == 1 {
                player_1_pieces.push(Piece { x, y });
            } else if square == 2 {
                player_2_pieces.push(Piece { x, y });
            }
            y = y + 1;
        }
        x = x + 1;
    }
    assert(squares().take(64) =~= squares());
    (player_1_pieces, player_2_pieces)
}

/// A square is among the squares that hold `mark` exactly if it lies on the
/// board and holds `mark`.
pub proof fn lemma_squares_holding(at: spec_fn(int, int) -> u8, mark: u8, square: Piece)
    ensures
        squares_holding(at, mark).contains(square) <==> on_board(square) && at(
            square.x as int,
            square.y as int,
        ) == mark,
{
    let kept = squares_holding(at, mark);
    if on_board(square) && at(square.x as int, square.y as int) == mark {
        let k = 8 * square.x + square.y;
        assert(squares()[k] == square);
        squares().lemma_filter_contains(holding(at, mark), k);
    }
    if kept.contains(square) {
        squares().lemma_filter_contains_rev(holding(at, mark), square);
        let k = choose|k: int| 0 <= k < squares().len() && squares()[k] == square;
        assert(on_board(squares()[k]));
        let j = choose|j: int| 0 <= j < kept.len() && kept[j] == square;
        squares().lemma_filter_pred(holding(at, mark), j);
    }
}

/// Occupancies that agree on the board give the same squares.
pub proof fn lemma_squares_holding_agree(
    at: spec_fn(int, int) -> u8,
    other: spec_fn(int, int) -> u8,
    mark: u8,
)
    requires
        forall|x: int, y: int| 0 <= x < 8 && 0 <= y < 8 ==> #[trigger] at(x, y) == other(x, y),
    ensures
        squares_holding(at, mark) == squares_holding(other, mark),
{
    lemma_prefix_agree(at, other, mark, 64);
    assert(squares().take(64) =~= squares());
}

proof fn lemma_prefix_agree(
    at: spec_fn(int, int) -> u8,
    other: spec_fn(int, int) -> u8,
    mark: u8,
    k: int,
)
    requires
        0 <= k <= 64,
        forall|x: int, y: int| 0 <= x < 8 && 0 <= y < 8 ==> #[trigger] at(x, y) == other(x, y),
    ensures
        squares().take(k).filter(holding(at, mark)) == squares().take(k).filter(
            holding(other, mark),
        ),
    decreases k,
{
    if k == 0 {
        assert(squares().take(0) =~= Seq::<Piece>::empty());
        squares().take(0).lemma_filter_len(holding(at, mark));
        squares().take(0).lemma_filter_len(holding(other, mark));
        assert(squares().take(0).filter(holding(at, mark)) =~= squares().take(0).filter(
            holding(other, mark),
        ));
    } else {
        lemma_prefix_agree(at, other, mark, k - 1);
        let here = squares()[k - 1];
        assert(squares().take(k) =~= squares().take(k - 1).push(here));
        squares().take(k - 1).lemma_filter_push(here, holding(at, mark));
        squares().take(k - 1).lemma_filter_push(here, holding(other, mark));
        assert(at(here.x as int, here.y as int) == other(here.x as int, here.y as int));
    }
}

/// No square is held twice: no player holds a square twice, and no square is
/// held by both.
pub open spec fn one_piece_per_square(first: Seq<Piece>, second: Seq<Piece>) -> bool {
    &&& first.no_duplicates()
    &&& second.no_duplicates()
    &&& forall|i: int, j: int|
        0 <= i < first.len() && 0 <= j < second.len() ==> #[trigger] first[i] != #[trigger] second[j]
}

/// From pieces to a matrix and back loses nothing: where no square is held
/// twice and `at` is the occupancy of the matrix made from the pieces, the
/// squares found on the matrix are, for each player, the squares it had.
pub proof fn lemma_sparse_round_trip(
    first: Seq<Piece>,
    second: Seq<Piece>,
    at: spec_fn(int, int) -> u8,
)
    requires
        all_on_board(first),
        all_on_board(second),
        one_piece_per_square(first, second),
        forall|x: int, y: int|
            0 <= x < 8 && 0 <= y < 8 ==> #[trigger] at(x, y) == occupant(first, second, x, y),
    ensures
        squares_holding(at, 1).to_set() == first.to_set(),
        squares_holding(at, 2).to_set() == second.to_set(),
{
    assert forall|square: Piece| squares_holding(at, 1).contains(square) <==> first.contains(
        square,
    ) by {
        lemma_squares_holding(at, 1, square);
        if first.contains(square) {
            let i = choose|i: int| 0 <= i < first.len() && first[i] == square;
            assert(on_board(first[i]));
            assert(first[i].x == square.x && first[i].y == square.y);
            if exists|k: int|
                0 <= k < second.len() && #[trigger] second[k].x == square.x && second[k].y
                    == square.y {
                let k = choose|k: int|
                    0 <= k < second.len() && #[trigger] second[k].x == square.x && second[k].y
                        == square.y;
                assert(first[i] == second[k]);
            }
        }
        if on_board(square) && at(square.x as int, square.y as int) == 1 {
            let i = choose|i: int|
                0 <= i < first.len() && #[trigger] first[i].x == square.x && first[i].y
                    == square.y;
            assert(first[i] == square);
        }
    }
    assert forall|square: Piece| squares_holding(at, 2).contains(square) <==> second.contains(
        square,
    ) by {
        lemma_squares_holding(at, 2, square);
        if second.contains(square) {
            let j = choose|j: int| 0 <= j < second.len() && second[j] == square;
            assert(on_board(second[j]));
            assert(second[j].x == square.x && second[j].y == square.y);
        }
        if on_board(square) && at(square.x as int, square.y as int) == 2 {
            let j = choose|j: int|
                0 <= j < second.len() && #[trigger] second[j].x == square.x && second[j].y
                    == square.y;
            assert(second[j] == square);
        }
    }
    assert(squares_holding(at, 1).to_set() =~= first.to_set());
    assert(squares_holding(at, 2).to_set() =~= second.to_set());
}

/// From a matrix to pieces and back changes nothing: where every square of
/// the board holds 0, 1 or 2, the pieces found on it occupy it as it was.
pub proof fn lemma_dense_round_trip(at: spec_fn(int, int) -> u8, x: int, y: int)
    requires
        0 <= x < 8,
        0 <= y < 8,
        at(x, y) <= 2,
    ensures
        occupant(squares_holding(at, 1), squares_holding(at, 2), x, y) == at(x, y),
{
    let first = squares_holding(at, 1);
    let second = squares_holding(at, 2);
    let here = Piece { x: x as usize, y: y as usize };
    lemma_squares_holding(at, 1, here);
    lemma_squares_holding(at, 2, here);
    if second.contains(here) {
        let k = choose|k: int| 0 <= k < second.len() && second[k] == here;
        assert(second[k].x == x && second[k].y == y);
    }
    if first.contains(here) {
        let k = choose|k: int| 0 <= k < first.len() && first[k] == here;
        assert(first[k].x == x && first[k].y == y);
    }
    if exists|k: int| 0 <= k < second.len() && #[trigger] second[k].x == x && second[k].y == y {
        let k = choose|k: int| 0 <= k < second.len() && #[trigger] second[k].x == x && second[k].y == y;
        assert(second[k] == here);
    }
    if exists|k: int| 0 <= k < first.len() && #[trigger] first[k].x == x && first[k].y == y {
        let k = choose|k: int| 0 <= k < first.len() && #[trigger] first[k].x == x && first[k].y == y;
        assert(first[k] == here);
    }
}

/// A sequence without repetitions has none after filtering.
proof fn lemma_filter_no_duplicates(squares: Seq<Piece>, keep: spec_fn(Piece) -> bool)
    requires
        squares.no_duplicates(),
    ensures
        squares.filter(keep).no_duplicates(),
    decreases squares.len(),
{
    if squares.len() == 0 {
        squares.lemma_filter_len(keep);
    } else {
        let rest = squares.drop_last();
        let last = squares.last();
        lemma_filter_no_duplicates(rest, keep);
        rest.lemma_filter_push(last, keep);
        assert(rest.push(last) =~= squares);
        if keep(last) {
            let kept = rest.filter(keep);
            assert forall|i: int, j: int|
                0 <= i < kept.push(last).len() && 0 <= j < kept.push(last).len() && i
                    != j implies kept.push(last)[i] != kept.push(last)[j] by {
                if i == kept.len() || j == kept.len() {
                    let other = if i == kept.len() {
                        j
                    } else {
                        i
                    };
                    if kept[other] == last {
                        assert(kept.contains(last));
                        rest.lemma_filter_contains_rev(keep, last);
                        let k = choose|k: int| 0 <= k < rest.len() && rest[k] == last;
                        assert(squares[k] == squares[squares.len() - 1]);
                    }
                }
            }
        }
    }
}

/// The squares found on a board lie on the board, and no square is found
/// twice.
pub proof fn lemma_squares_holding_wf(at: spec_fn(int, int) -> u8)
    ensures
        all_on_board(squares_holding(at, 1)),
        all_on_board(squares_holding(at, 2)),
        one_piece_per_square(squares_holding(at, 1), squares_holding(at, 2)),
{
    let first = squares_holding(at, 1);
    let second = squares_holding(at, 2);
    assert forall|k: int| 0 <= k < first.len() implies on_board(#[trigger] first[k]) by {
        lemma_squares_holding(at, 1, first[k]);
    }
    assert forall|k: int| 0 <= k < second.len() implies on_board(#[trigger] second[k]) by {
        lemma_squares_holding(at, 2, second[k]);
    }
    assert forall|i: int, j: int| 0 <= i < first.len() && 0 <= j < second.len() implies #[trigger] first[i]
        != #[trigger] second[j] by {
        lemma_squares_holding(at, 1, first[i]);
        lemma_squares_holding(at, 2, second[j]);
    }
    assert(squares().no_duplicates()) by {
        assert forall|i: int, j: int|
            0 <= i < squares().len() && 0 <= j < squares().len() && i != j implies squares()[i]
            != squares()[j] by {
            assert(i / 8 != j / 8 || i % 8 != j % 8);
        }
    }
    lemma_filter_no_duplicates(squares(), holding(at, 1));
    lemma_filter_no_duplicates(squares(), holding(at, 2));
}

/// The number that stands for a piece of `player` on the board.
pub open spec fn mark_of(player: Player) -> u8 {
    match player {
        Player::Player1 => 1,
        Player::Player2 => 2,
    }
}

/// Whether `to` lies two squares from `from` in both directions.
pub open spec fn is_jump(from: Piece, to: Piece) -> bool {
    &&& to.x - from.x == 2 || from.x - to.x == 2
    &&& to.y - from.y == 2 || from.y - to.y == 2
}

/// The square half way between `from` and `to`.
pub open spec fn midpoint(from: Piece, to: Piece) -> Piece {
    Piece { x: ((from.x + to.x) / 2) as usize, y: ((from.y + to.y) / 2) as usize }
}

/// The occupancy after the piece on `from` went to `to` as a piece marked
/// `mark`: `from` is empty, `to` holds `mark`, and after a jump the square
/// between them is empty too. All other squares are as they were.
pub open spec fn moved(at: spec_fn(int, int) -> u8, from: Piece, to: Piece, mark: u8) -> spec_fn(
    int,
    int,
) -> u8 {
    |x: int, y: int|
        if is_jump(from, to) && x == midpoint(from, to).x && y == midpoint(from, to).y {
            0u8
        } else if x == to.x && y == to.y {
            mark
        } else if x == from.x && y == from.y {
            0u8
        } else {
            at(x, y)
        }
}

impl GameStateView {
    /// The state before any move: twelve pieces each, on the dark squares of
    /// the three rows nearest to each player.
    pub open spec fn initial() -> GameStateView {
        GameStateView {
            moves: Seq::empty(),
            player_1: PlayerStateView {
                pieces: seq![
                    Piece { x: 0, y: 0 },
                    Piece { x: 2, y: 0 },
                    Piece { x: 4, y: 0 },
                    Piece { x: 6, y: 0 },
                    Piece { x: 1, y: 1 },
                    Piece { x: 3, y: 1 },
                    Piece { x: 5, y: 1 },
                    Piece { x: 7, y: 1 },
                    Piece { x: 0, y: 2 },
                    Piece { x: 2, y: 2 },
                    Piece { x: 4, y: 2 },
                    Piece { x: 6, y: 2 },
                ],
                resigned: false,
                winner: false,
            },
            player_2: PlayerStateView {
                pieces: seq![
                    Piece { x: 1, y: 5 },
                    Piece { x: 3, y: 5 },
                    Piece { x: 5, y: 5 },
                    Piece { x: 7, y: 5 },
                    Piece { x: 0, y: 6 },
                    Piece { x: 2, y: 6 },
                    Piece { x: 4, y: 6 },
                    Piece { x: 6, y: 6 },
                    Piece { x: 1, y: 7 },
                    Piece { x: 3, y: 7 },
                    Piece { x: 5, y: 7 },
                    Piece { x: 7, y: 7 },
                ],
                resigned: false,
                winner: false,
            },
        }
    }

    /// Whether `next_move` can be applied: its author holds a seat of
    /// `game`, and a piece is moved between squares of the board. Whether the
    /// move is legal is not asked here.
    pub open spec fn can_evolve(self, game: GameView, next_move: MoveView<MoveType>) -> bool {
        &&& seat_of(game, next_move.author) is Some
        &&& next_move.move_type matches MoveType::MovePiece { from, to } ==> on_board(from)
            && on_board(to)
    }

    /// The state after `next_move`. A resignation ends the game: the player
    /// who resigns has resigned, and the other player has won.
    pub open spec fn evolve(self, game: GameView, next_move: MoveView<MoveType>) -> GameStateView {
        let player = seat_of(game, next_move.author).unwrap();
        match next_move.move_type {
            MoveType::MovePiece { from, to } => {
                let after = moved(self.occupancy(), from, to, mark_of(player));
                GameStateView {
                    moves: self.moves.push(next_move),
                    player_1: PlayerStateView {
                        pieces: squares_holding(after, 1),
                        ..self.player_1
                    },
                    player_2: PlayerStateView {
                        pieces: squares_holding(after, 2),
                        ..self.player_2
                    },
                }
            },
            MoveType::Resign => match player {
                Player::Player1 => GameStateView {
                    moves: self.moves.push(next_move),
                    player_1: PlayerStateView { resigned: true, ..self.player_1 },
                    player_2: PlayerStateView { winner: true, ..self.player_2 },
                },
                Player::Player2 => GameStateView {
                    moves: self.moves.push(next_move),
                    player_1: PlayerStateView { winner: true, ..self.player_1 },
                    player_2: PlayerStateView { resigned: true, ..self.player_2 },
                },
            },
        }
    }
}

/// A move of a piece changes the two squares it names, and a jump the square
/// between them: after a jump that square is empty, whatever stood on it;
/// after any other move nothing but the two squares has changed.
pub proof fn lemma_jump_captures(
    state: GameStateView,
    game: GameView,
    next_move: MoveView<MoveType>,
    x: int,
    y: int,
)
    requires
        state.wf(),
        state.can_evolve(game, next_move),
        next_move.move_type is MovePiece,
        0 <= x < 8,
        0 <= y < 8,
    ensures
        ({
            let from = next_move.move_type->from;
            let to = next_move.move_type->to;
            let next = state.evolve(game, next_move);
            let middle = midpoint(from, to);
            if is_jump(from, to) && x == middle.x && y == middle.y {
                next.at(x, y) == 0
            } else if x == to.x && y == to.y {
                next.at(x, y) == mark_of(seat_of(game, next_move.author).unwrap())
            } else if x == from.x && y == from.y {
                next.at(x, y) == 0
            } else {
                next.at(x, y) == state.at(x, y)
            }
        }),
{
    let from = next_move.move_type->from;
    let to = next_move.move_type->to;
    let mark = mark_of(seat_of(game, next_move.author).unwrap());
    let after = moved(state.occupancy(), from, to, mark);
    assert(after(x, y) <= 2);
    lemma_dense_round_trip(after, x, y);
}

/// A piece stands on one square and a square holds one piece: where no
/// square is held twice before a move, none is after it.
pub proof fn lemma_evolve_keeps_one_piece_per_square(
    state: GameStateView,
    game: GameView,
    next_move: MoveView<MoveType>,
)
    requires
        state.wf(),
        state.can_evolve(game, next_move),
        one_piece_per_square(state.player_1.pieces, state.player_2.pieces),
    ensures
        one_piece_per_square(
            state.evolve(game, next_move).player_1.pieces,
            state.evolve(game, next_move).player_2.pieces,
        ),
{
    match next_move.move_type {
        MoveType::MovePiece { from, to } => {
            let mark = mark_of(seat_of(game, next_move.author).unwrap());
            lemma_squares_holding_wf(moved(state.occupancy(), from, to, mark));
        },
        MoveType::Resign => {},
    }
}

/// In the initial state no square is held twice.
pub proof fn lemma_initial_one_piece_per_square()
    ensures
        one_piece_per_square(
            GameStateView::initial().player_1.pieces,
            GameStateView::initial().player_2.pieces,
        ),
{
    let first = GameStateView::initial().player_1.pieces;
    let second = GameStateView::initial().player_2.pieces;
    assert(first.len() == 12 && second.len() == 12);
    assert forall|i: int, j: int| 0 <= i < first.len() && 0 <= j < first.len() && i != j implies first[i]
        != first[j] by {
        assert(first[i].x + 8 * first[i].y != first[j].x + 8 * first[j].y);
    }
    assert forall|i: int, j: int| 0 <= i < second.len() && 0 <= j < second.len() && i != j implies second[i]
        != second[j] by {
        assert(second[i].x + 8 * second[i].y != second[j].x + 8 * second[j].y);
    }
    assert forall|i: int, j: int| 0 <= i < first.len() && 0 <= j < second.len() implies #[trigger] first[i]
        != #[trigger] second[j] by {
        assert(first[i].y <= 2 && second[j].y >= 5);
    }
}

/// A copy of `pieces`.
fn copy_pieces(pieces: &Vec<Piece>) -> (copy: Vec<Piece>)
    ensures
        copy@ == pieces@,
{
    let mut copy: Vec<Piece> = Vec::new();
    let mut i: usize = 0;
    while i < pieces.len()
        invariant
            i <= pieces.len(),
            copy@ == pieces@.take(i as int),
        decreases pieces.len() - i,
    {
        copy.push(pieces[i]);
        assert(pieces@.take(i as int + 1) =~= pieces@.take(i as int).push(pieces@[i as int]));
        i = i + 1;
    }
    assert(pieces@.take(i as int) =~= pieces@);
    copy
}

/// Whether every one of `pieces` lies on the board.
fn pieces_on_board(pieces: &Vec<Piece>) -> (yes: bool)
    ensures
        yes == all_on_board(pieces@),
{
    let mut i: usize = 0;
    while i < pieces.len()
        invariant
            i <= pieces.len(),
            forall|k: int| 0 <= k < i ==> on_board(#[trigger] pieces@[k]),
        decreases pieces.len() - i,
    {
        if !(pieces[i].x < BOARD_SIZE && pieces[i].y < BOARD_SIZE) {
            assert(!on_board(pieces@[i as int]));
            return false;
        }
        i = i + 1;
    }
    true
}

impl GameState {
    /// The state before any move.
    pub fn initial() -> (state: GameState)
        ensures
            state@ == GameStateView::initial(),
            state@.wf(),
    {
        let player1_state = PlayerState {
            pieces: vec![
                Piece { x: 0, y: 0 },
                Piece { x: 2, y: 0 },
                Piece { x: 4, y: 0 },
                Piece { x: 6, y: 0 },
                Piece { x: 1, y: 1 },
                Piece { x: 3, y: 1 },
                Piece { x: 5, y: 1 },
                Piece { x: 7, y: 1 },
                Piece { x: 0, y: 2 },
                Piece { x: 2, y: 2 },
                Piece { x: 4, y: 2 },
                Piece { x: 6, y: 2 },
            ],
            resigned: false,
            winner: false,
        };
        let player2_state = PlayerState {
            pieces: vec![
                Piece { x: 1, y: 5 },
                Piece { x: 3, y: 5 },
                Piece { x: 5, y: 5 },
                Piece { x: 7, y: 5 },
                Piece { x: 0, y: 6 },
                Piece { x: 2, y: 6 },
                Piece { x: 4, y: 6 },
                Piece { x: 6, y: 6 },
                Piece { x: 1, y: 7 },
                Piece { x: 3, y: 7 },
                Piece { x: 5, y: 7 },
                Piece { x: 7, y: 7 },
            ],
            resigned: false,
            winner: false,
        };
        let state = GameState { moves: Vec::new(), player_1: player1_state, player_2: player2_state };
        assert(state@.moves =~= Seq::empty());
        assert(state@.player_1.pieces =~= GameStateView::initial().player_1.pieces);
        assert(state@.player_2.pieces =~= GameStateView::initial().player_2.pieces);
        state
    }

    /// Whether every piece lies on the board.
    pub fn is_well_formed(&self) -> (yes: bool)
        ensures
            yes == self@.wf(),
    {
        pieces_on_board(&self.player_1.pieces) && pieces_on_board(&self.player_2.pieces)
    }

    /// Whether `next_move` can be applied to this state.
    pub fn can_evolve(&self, game: &Game, next_move: &Move<MoveType>) -> (possible: bool)
        ensures
            possible == self@.can_evolve(game@, next_move@),
    {
        match get_current_player(game, &next_move.author) {
            Ok(_) => match next_move.move_type {
                MoveType::MovePiece { from, to } => from.x < BOARD_SIZE && from.y < BOARD_SIZE
                    && to.x < BOARD_SIZE && to.y < BOARD_SIZE,
                MoveType::Resign => true,
            },
            Err(_) => false,
        }
    }

    /// The state after `next_move`, which is taken to be legal: the piece
    /// leaves `from` and stands on `to` as a piece of the mover, and where
    /// `to` lies two squares away in both directions the square between is
    /// emptied. A move between squares off the board, or by an agent without
    /// a seat, cannot be applied.
    pub fn evolve(&self, game: Game, next_move: &Move<MoveType>) -> (next: GameState)
        requires
            self@.wf(),
            self@.can_evolve(game@, next_move@),
        ensures
            next@ == self@.evolve(game@, next_move@),
            next@.wf(),
    {
        let current_player = get_current_player(&game, &next_move.author).unwrap();
        let mut moves = clone_moves(&self.moves);
        moves.push(next_move.clone());
        assert(move_views(moves@) =~= self@.moves.push(next_move@));
        match next_move.move_type {
            MoveType::MovePiece { from, to } => {
                let mut board = board_sparse_to_dense(self);
                let ghost before = board;
                let mark: u8 = match current_player {
                    Player::Player1 => 1,
                    Player::Player2 => 2,
                };
                board[from.x][from.y] = 0;
                board[to.x][to.y] = mark;
                let across = if to.x >= from.x {
                    to.x - from.x
                } else {
                    from.x - to.x
                };
                let along = if to.y >= from.y {
                    to.y - from.y
                } else {
                    from.y - to.y
                };
                if across == 2 && along == 2 {
                    board[(from.x + to.x) / 2][(from.y + to.y) / 2] = 0;
                }
                let (player_1_pieces, player_2_pieces) = board_dense_to_sparse(board);
                proof {
                    let after = moved(self@.occupancy(), from, to, mark);
                    assert forall|x: int, y: int| 0 <= x < 8 && 0 <= y < 8 implies #[trigger] cells(
                        board,
                    )(x, y) == after(x, y) by {
                        assert(before[x][y] == self@.at(x, y));
                    }
                    lemma_squares_holding_agree(cells(board), after, 1);
                    lemma_squares_holding_agree(cells(board), after, 2);
                    lemma_squares_holding_wf(after);
                }
                GameState {
                    moves,
                    player_1: PlayerState {
                        pieces: player_1_pieces,
                        resigned: self.player_1.resigned,
                        winner: self.player_1.winner,
                    },
                    player_2: PlayerState {
                        pieces: player_2_pieces,
                        resigned: self.player_2.resigned,
                        winner: self.player_2.winner,
                    },
                }
            },
            MoveType::Resign => {
                let player_1_pieces = copy_pieces(&self.player_1.pieces);
                let player_2_pieces = copy_pieces(&self.player_2.pieces);
                match current_player {
                    Player::Player1 => GameState {
                        moves,
                        player_1: PlayerState {
                            pieces: player_1_pieces,
                            resigned: true,
                            winner: self.player_1.winner,
                        },
                        player_2: PlayerState {
                            pieces: player_2_pieces,
                            resigned: self.player_2.resigned,
                            winner: true,
                        },
                    },
                    Player::Player2 => GameState {
                        moves,
                        player_1: PlayerState {
                            pieces: player_1_pieces,
                            resigned: self.player_1.resigned,
                            winner: true,
                        },
                        player_2: PlayerState {
                            pieces: player_2_pieces,
                            resigned: true,
                            winner: self.player_2.winner,
                        },
                    },
                }
            },
        }
    }
}

/// What a square that holds `mark` is shown as: a blank, or a light or a
/// dark block, and the bar that ends the square.
pub open spec fn square_text(mark: u8) -> Seq<char> {
    if mark == 0 {
        " |"@
    } else if mark == 1 {
        "\u{2591}|"@
    } else if mark == 2 {
        "\u{2593}|"@
    } else {
        Seq::empty()
    }
}

/// What begins row `y`: its number and a bar.
pub open spec fn row_label(y: int) -> Seq<char> {
    if y == 0 {
        "0   |"@
    } else if y == 1 {
        "1   |"@
    } else if y == 2 {
        "2   |"@
    } else if y == 3 {
        "3   |"@
    } else if y == 4 {
        "4   |"@
    } else if y == 5 {
        "5   |"@
    } else if y == 6 {
        "6   |"@
    } else {
        "7   |"@
    }
}

impl GameStateView {
    /// Whose turn it is, as `agent` is told.
    pub open spec fn turn_text(self, agent: Seq<char>) -> Seq<char> {
        if self.moves.len() == 0 {
            "Non-creator must make the first move \n"@
        } else if self.moves.last().author == agent {
            "It's your oponent's turn \n"@
        } else {
            "It's your turn \n"@
        }
    }

    /// The first `count` squares of row `y`.
    pub open spec fn squares_text(self, y: int, count: int) -> Seq<char>
        decreases count,
    {
        if count <= 0 {
            Seq::empty()
        } else {
            self.squares_text(y, count - 1) + square_text(self.at(count - 1, y))
        }
    }

    /// Row `y`: its label, its eight squares, and the end of the line.
    pub open spec fn row_text(self, y: int) -> Seq<char> {
        row_label(y) + self.squares_text(y, 8) + "\n"@
    }

    /// The first `count` rows.
    pub open spec fn rows_text(self, count: int) -> Seq<char>
        decreases count,
    {
        if count <= 0 {
            Seq::empty()
        } else {
            self.rows_text(count - 1) + self.row_text(count - 1)
        }
    }

    /// How the game ended, or nothing if it has not.
    pub open spec fn ending_text(self) -> Seq<char> {
        if self.player_1.resigned {
            "Player 1 has resigned"@
        } else if self.player_2.resigned {
            "Player 2 has resigned"@
        } else if self.player_1.winner {
            "Player 1 has won"@
        } else if self.player_2.winner {
            "Player 2 has won"@
        } else {
            Seq::empty()
        }
    }

    /// The state as text for `agent`: whose turn it is, the board with its
    /// columns and rows numbered, and how the game ended.
    pub open spec fn render(self, agent: Seq<char>) -> Seq<char> {
        "\n"@ + self.turn_text(agent) + "  x  0 1 2 3 4 5 6 7\n"@ + "y\n"@ + self.rows_text(8)
            + self.ending_text()
    }
}

/// The label of row `y`.
fn row_label_of(y: usize) -> (label: &'static str)
    requires
        y < 8,
    ensures
        label@ == row_label(y as int),
{
    if y == 0 {
        "0   |"
    } else if y == 1 {
        "1   |"
    } else if y == 2 {
        "2   |"
    } else if y == 3 {
        "3   |"
    } else if y == 4 {
        "4   |"
    } else if y == 5 {
        "5   |"
    } else if y == 6 {
        "6   |"
    } else {
        "7   |"
    }
}

impl GameState {
    /// The state as text for `agent`, to show in a terminal.
    pub fn render(&self, agent: &Address) -> (text: String)
        requires
            self@.wf(),
        ensures
            text@ == self@.render(agent@),
    {
        let board_dense = board_sparse_to_dense(self);
        let mut disp = "\n".to_owned();
        let count = self.moves.len();
        if count == 0 {
            disp.append("Non-creator must make the first move \n");
        } else {
            assert(self@.moves.last() == self.moves@[count - 1]@);
            if self.moves[count - 1].author == *agent {
                disp.append("It's your oponent's turn \n");
            } else {
                disp.append("It's your turn \n");
            }
        }
        disp.append("  x  0 1 2 3 4 5 6 7\n");
        disp.append("y\n");
        let ghost head = disp@;
        assert(head =~= "\n"@ + self@.turn_text(agent@) + "  x  0 1 2 3 4 5 6 7\n"@ + "y\n"@);
        assert(disp@ =~= head + self@.rows_text(0));
        let mut y: usize = 0;
        while y < 8
            invariant
                y <= 8,
                self@.wf(),
                forall|x: int, y: int|
                    0 <= x < 8 && 0 <= y < 8 ==> #[trigger] board_dense[x][y] == self@.at(x, y),
                disp@ == head + self@.rows_text(y as int),
            decreases 8 - y,
        {
            let ghost above = disp@;
            disp.append(row_label_of(y));
            assert(disp@ =~= above + row_label(y as int) + self@.squares_text(y as int, 0));
            let mut x: usize = 0;
            while x < 8
                invariant
                    x <= 8,
                    y < 8,
                    forall|x: int, y: int|
                        0 <= x < 8 && 0 <= y < 8 ==> #[trigger] board_dense[x][y] == self@.at(
                            x,
                            y,
                        ),
                    disp@ == above + row_label(y as int) + self@.squares_text(y as int, x as int),
                decreases 8 - x,
            {
                let piece = board_dense[x][y];
                let ghost left = disp@;
                if piece == 0 {
                    disp.append(" |");
                } else if piece == 1 {
                    disp.append("\u{2591}|");
                } else if piece == 2 {
                    disp.append("\u{2593}|");
                }
                assert(disp@ =~= left + square_text(self@.at(x as int, y as int)));
                assert(disp@ =~= above + row_label(y as int) + self@.squares_text(
                    y as int,
                    x as int + 1,
                ));
                x = x + 1;
            }
            disp.append("\n");
            assert(disp@ =~= above + self@.row_text(y as int));
            assert(disp@ =~= head + self@.rows_text(y as int + 1));
            y = y + 1;
        }
        if self.player_1.resigned {
            disp.append("Player 1 has resigned");
        } else if self.player_2.resigned {
            disp.append("Player 2 has resigned");
        } else if self.player_1.winner {
            disp.append("Player 1 has won");
        } else if self.player_2.winner {
            disp.append("Player 2 has won");
        }
        assert(disp@ =~= head + self@.rows_text(8) + self@.ending_text());
        disp
    }
}

} // verus!
