use vstd::prelude::*;
use vstd::string::StringExecFns;
use crate::address::Address;
use crate::game::{get_current_player, seat_of, Game, GameView, Player};
use crate::game_move::{move_views, Move, MoveView};
use super::moves::{MoveType, Piece};

verus! {

/// The board has `BOARD_SIZE` columns and `BOARD_SIZE` rows.
pub const BOARD_SIZE: usize = 3;

/// The mark of player 1.
pub const PLAYER_1_MARK: char = 'O';

/// The mark of player 2, who moves first.
pub const PLAYER_2_MARK: char = 'X';

/// What an empty square is shown as.
pub const EMPTY_SPACE: char = ' ';

/// What one player has on the board, and how the game ended for that player.
#[derive(Debug, PartialEq, Eq)]
pub struct PlayerState {
    pub pieces: Vec<Piece>,
    pub resigned: bool,
    pub winner: bool,
}

/// What a [`PlayerState`] is to the contracts.
pub struct PlayerStateView {
    pub pieces: Seq<Piece>,
    pub resigned: bool,
    pub winner: bool,
}

impl View for PlayerState {
    type V = PlayerStateView;

    open spec fn view(&self) -> PlayerStateView {
        PlayerStateView { pieces: self.pieces@, resigned: self.resigned, winner: self.winner }
    }
}

impl PlayerState {
    /// A player before any move: no mark on the board.
    pub fn initial() -> (state: PlayerState)
        ensures
            state@ == (PlayerStateView { pieces: Seq::empty(), resigned: false, winner: false }),
    {
        PlayerState { pieces: Vec::new(), resigned: false, winner: false }
    }
}

/// The state of a game of tic-tac-toe: the moves made so far and what they
/// left on the board. It is always derived from the moves, never stored.
#[derive(Debug, PartialEq, Eq)]
pub struct GameState {
    pub moves: Vec<Move<MoveType>>,
    pub player_1: PlayerState,
    pub player_2: PlayerState,
}

/// What a [`GameState`] is to the contracts.
pub struct GameStateView {
    pub moves: Seq<MoveView<MoveType>>,
    pub player_1: PlayerStateView,
    pub player_2: PlayerStateView,
}

impl View for GameState {
    type V = GameStateView;

    open spec fn view(&self) -> GameStateView {
        GameStateView {
            moves: move_views(self.moves@),
            player_1: self.player_1@,
            player_2: self.player_2@,
        }
    }
}

/// Whether `square` lies on the board.
pub open spec fn on_board(square: Piece) -> bool {
    square.x < BOARD_SIZE && square.y < BOARD_SIZE
}

/// Whether every one of `pieces` lies on the board.
pub open spec fn all_on_board(pieces: Seq<Piece>) -> bool {
    forall|k: int| 0 <= k < pieces.len() ==> on_board(#[trigger] pieces[k])
}

/// What stands on the square `(x, y)` when player 1 holds `first` and player
/// 2 holds `second`: 0 for nothing, 1 and 2 for a mark of that player. Where
/// both hold the square, player 2 has it.
pub open spec fn occupant(first: Seq<Piece>, second: Seq<Piece>, x: int, y: int) -> u8 {
    if exists|k: int| 0 <= k < second.len() && #[trigger] second[k].x == x && second[k].y == y {
        2
    } else if exists|k: int| 0 <= k < first.len() && #[trigger] first[k].x == x && first[k].y == y {
        1
    } else {
        0
    }
}

/// The squares of the board, column by column: `(0, 0)`, `(0, 1)`, and so on
/// to `(2, 2)`.
pub open spec fn squares() -> Seq<Piece> {
    Seq::new(9, |k: int| Piece { x: (k / 3) as usize, y: (k % 3) as usize })
}

/// What stands on each square of `board`.
pub open spec fn cells(board: [[u8; 3]; 3]) -> spec_fn(int, int) -> u8 {
    |x: int, y: int| board[x][y]
}

/// The test whether a square holds `mark` under the occupancy `at`.
pub open spec fn holding(at: spec_fn(int, int) -> u8, mark: u8) -> spec_fn(Piece) -> bool {
    |square: Piece| at(square.x as int, square.y as int) == mark
}

/// The squares that hold `mark` under the occupancy `at`, in the order of
/// [`squares`].
pub open spec fn squares_holding(at: spec_fn(int, int) -> u8, mark: u8) -> Seq<Piece> {
    squares().filter(holding(at, mark))
}

/// The number that stands for a mark of `player` on the board.
pub open spec fn mark_of(player: Player) -> u8 {
    match player {
        Player::Player1 => 1,
        Player::Player2 => 2,
    }
}

/// The occupancy after `mark` was placed on `pos`.
pub open spec fn placed(at: spec_fn(int, int) -> u8, pos: Piece, mark: u8) -> spec_fn(int, int) -> u8 {
    |x: int, y: int|
        if x == pos.x && y == pos.y {
            mark
        } else {
            at(x, y)
        }
}

/// Whether a whole column or a whole row of the board holds `mark`. The
/// diagonals do not count.
pub open spec fn has_line(at: spec_fn(int, int) -> u8, mark: u8) -> bool {
    ||| full_column(at, mark, 0)
    ||| full_column(at, mark, 1)
    ||| full_column(at, mark, 2)
    ||| full_row(at, mark, 0)
    ||| full_row(at, mark, 1)
    ||| full_row(at, mark, 2)
}

/// Whether every square of column `x` holds `mark`.
pub open spec fn full_column(at: spec_fn(int, int) -> u8, mark: u8, x: int) -> bool {
    at(x, 0) == mark && at(x, 1) == mark && at(x, 2) == mark
}

/// Whether every square of row `y` holds `mark`.
pub open spec fn full_row(at: spec_fn(int, int) -> u8, mark: u8, y: int) -> bool {
    at(0, y) == mark && at(1, y) == mark && at(2, y) == mark
}

impl GameStateView {
    /// Every mark lies on the board.
    pub open spec fn wf(self) -> bool {
        all_on_board(self.player_1.pieces) && all_on_board(self.player_2.pieces)
    }

    /// What stands on the square `(x, y)`.
    pub open spec fn at(self, x: int, y: int) -> u8 {
        occupant(self.player_1.pieces, self.player_2.pieces, x, y)
    }

    /// What stands on each square.
    pub open spec fn occupancy(self) -> spec_fn(int, int) -> u8 {
        |x: int, y: int| self.at(x, y)
    }

    /// The state before any move: an empty board.
    pub open spec fn initial() -> GameStateView {
        GameStateView {
            moves: Seq::empty(),
            player_1: PlayerStateView { pieces: Seq::empty(), resigned: false, winner: false },
            player_2: PlayerStateView { pieces: Seq::empty(), resigned: false, winner: false },
        }
    }

    /// Whether `next_move` can be applied: its author holds a seat of
    /// `game`, and the mark is placed on the board. Whether the move is
    /// legal is not asked here.
    pub open spec fn can_reduce(self, game: GameView, next_move: MoveView<MoveType>) -> bool {
        &&& seat_of(game, next_move.author) is Some
        &&& next_move.move_type matches MoveType::Place { pos } && on_board(pos)
    }

    /// The state after `next_move`: the mark of its author stands on the
    /// square, and a player whose marks fill a row or a column has won.
    pub open spec fn reduce(self, game: GameView, next_move: MoveView<MoveType>) -> GameStateView {
        let player = seat_of(game, next_move.author).unwrap();
        let after = placed(self.occupancy(), next_move.move_type->pos, mark_of(player));
        GameStateView {
            moves: self.moves.push(next_move),
            player_1: PlayerStateView {
                pieces: squares_holding(after, 1),
                resigned: false,
                winner: has_line(after, 1),
            },
            player_2: PlayerStateView {
                pieces: squares_holding(after, 2),
                resigned: false,
                winner: has_line(after, 2),
            },
        }
    }
}

/// One more mark in a player's list changes the occupancy of its square
/// alone: as the last of player 1's marks it gives the square to player 1
/// unless player 2 holds it, as the last of player 2's it gives it to
/// player 2.
proof fn lemma_occupant_grows(first: Seq<Piece>, second: Seq<Piece>, count: int, x: int, y: int)
    requires
        0 <= count < first.len(),
    ensures
        occupant(first.take(count + 1), second, x, y) == if exists|k: int|
            0 <= k < second.len() && #[trigger] second[k].x == x && second[k].y == y {
            2u8
        } else if first[count].x == x && first[count].y == y {
            1u8
        } else {
            occupant(first.take(count), second, x, y)
        },
        occupant(second, first.take(count + 1), x, y) == if first[count].x == x && first[count].y
            == y {
            2u8
        } else {
            occupant(second, first.take(count), x, y)
        },
{
    let grown = first.take(count + 1);
    let short = first.take(count);
    if first[count].x == x && first[count].y == y {
        assert(grown[count].x == x && grown[count].y == y);
    } else {
        if exists|k: int| 0 <= k < short.len() && #[trigger] short[k].x == x && short[k].y == y {
            let k = choose|k: int| 0 <= k < short.len() && #[trigger] short[k].x == x && short[k].y == y;
            assert(grown[k].x == x && grown[k].y == y);
        }
        if exists|k: int| 0 <= k < grown.len() && #[trigger] grown[k].x == x && grown[k].y == y {
            let k = choose|k: int| 0 <= k < grown.len() && #[trigger] grown[k].x == x && grown[k].y == y;
            assert(short[k].x == x && short[k].y == y);
        }
    }
}

/// The board of `state` as a matrix, indexed by column and then by row: 0 for
/// an empty square, 1 and 2 for a mark of that player.
pub fn board_sparse_to_dense(state: &GameState) -> (board: [[u8; 3]; 3])
    requires
        state@.wf(),
    ensures
        forall|x: int, y: int|
            0 <= x < 3 && 0 <= y < 3 ==> #[trigger] board[x][y] == state@.at(x, y),
{
    let mut board = [[0u8; 3]; 3];
    let ghost first = state.player_1.pieces@;
    let ghost second = state.player_2.pieces@;
    let ghost none = Seq::<Piece>::empty();
    let mut i: usize = 0;
    while i < state.player_1.pieces.len()
        invariant
            i <= state.player_1.pieces.len(),
            first == state.player_1.pieces@,
            none == Seq::<Piece>::empty(),
            all_on_board(first),
            forall|x: int, y: int|
                0 <= x < 3 && 0 <= y < 3 ==> #[trigger] board[x][y] == occupant(
                    first.take(i as int),
                    none,
                    x,
                    y,
                ),
        decreases state.player_1.pieces.len() - i,
    {
        let piece = state.player_1.pieces[i];
        assert(on_board(first[i as int]));
        board[piece.x][piece.y] = 1;
        assert forall|x: int, y: int| 0 <= x < 3 && 0 <= y < 3 implies #[trigger] board[x][y]
            == occupant(first.take(i as int + 1), none, x, y) by {
            lemma_occupant_grows(first, none, i as int, x, y);
        }
        i = i + 1;
    }
    assert(first.take(i as int) =~= first);
    assert(second.take(0) =~= none);
    let mut j: usize = 0;
    while j < state.player_2.pieces.len()
        invariant
            j <= state.player_2.pieces.len(),
            second == state.player_2.pieces@,
            all_on_board(second),
            forall|x: int, y: int|
                0 <= x < 3 && 0 <= y < 3 ==> #[trigger] board[x][y] == occupant(
                    first,
                    second.take(j as int),
                    x,
                    y,
                ),
        decreases state.player_2.pieces.len() - j,
    {
        let piece = state.player_2.pieces[j];
        assert(on_board(second[j as int]));
        board[piece.x][piece.y] = 2;
        assert forall|x: int, y: int| 0 <= x < 3 && 0 <= y < 3 implies #[trigger] board[x][y]
            == occupant(first, second.take(j as int + 1), x, y) by {
            lemma_occupant_grows(second, first, j as int, x, y);
        }
        j = j + 1;
    }
    assert(second.take(j as int) =~= second);
    board
}

/// The marks of both players on `board`: the squares that hold 1, and the
/// squares that hold 2, each column by column.
pub fn board_dense_to_sparse(board: [[u8; 3]; 3]) -> (pieces: (Vec<Piece>, Vec<Piece>))
    ensures
        pieces.0@ == squares_holding(cells(board), 1),
        pieces.1@ == squares_holding(cells(board), 2),
{
    let mut player_1_pieces: Vec<Piece> = Vec::new();
    let mut player_2_pieces: Vec<Piece> = Vec::new();
    let ghost ones = holding(cells(board), 1);
    let ghost twos = holding(cells(board), 2);
    proof {
        assert(squares().take(0) =~= Seq::<Piece>::empty());
        squares().take(0).lemma_filter_len(ones);
        squares().take(0).lemma_filter_len(twos);
        assert(squares().take(0).filter(ones) =~= Seq::<Piece>::empty());
        assert(squares().take(0).filter(twos) =~= Seq::<Piece>::empty());
    }
    let mut x: usize = 0;
    while x < 3
        invariant
            x <= 3,
            ones == holding(cells(board), 1),
            twos == holding(cells(board), 2),
            player_1_pieces@ == squares().take(3 * x).filter(ones),
            player_2_pieces@ == squares().take(3 * x).filter(twos),
        decreases 3 - x,
    {
        let mut y: usize = 0;
        while y < 3
            invariant
                x < 3,
                y <= 3,
                ones == holding(cells(board), 1),
                twos == holding(cells(board), 2),
                player_1_pieces@ == squares().take(3 * x + y).filter(ones),
                player_2_pieces@ == squares().take(3 * x + y).filter(twos),
            decreases 3 - y,
        {
            let square = board[x][y];
            proof {
                let k = 3 * x + y;
                let here = Piece { x, y };
                assert(squares()[k] == here);
                assert(squares().take(k + 1) =~= squares().take(k).push(here));
                squares().take(k).lemma_filter_push(here, ones);
                squares().take(k).lemma_filter_push(here, twos);
            }
            if square == 1 {
                player_1_pieces.push(Piece { x, y });
            } else if square == 2 {
                player_2_pieces.push(Piece { x, y });
            }
            y = y + 1;
        }
        x = x + 1;
    }
    assert(squares().take(9) =~= squares());
    (player_1_pieces, player_2_pieces)
}

/// A square is among the squares that hold `mark` exactly if it lies on the
/// board and holds `mark`.
pub proof fn lemma_squares_holding(at: spec_fn(int, int) -> u8, mark: u8, square: Piece)
    ensures
        squares_holding(at, mark).contains(square) <==> on_board(square) && at(
            square.x as int,
            square.y as int,
        ) == mark,
{
    let kept = squares_holding(at, mark);
    if on_board(square) && at(square.x as int, square.y as int) == mark {
        let k = 3 * square.x + square.y;
        assert(squares()[k] == square);
        squares().lemma_filter_contains(holding(at, mark), k);
    }
    if kept.contains(square) {
        squares().lemma_filter_contains_rev(holding(at, mark), square);
        let k = choose|k: int| 0 <= k < squares().len() && squares()[k] == square;
        assert(on_board(squares()[k]));
        let j = choose|j: int| 0 <= j < kept.len() && kept[j] == square;
        squares().lemma_filter_pred(holding(at, mark), j);
    }
}

/// The squares found on a board lie on the board.
pub proof fn lemma_squares_holding_wf(at: spec_fn(int, int) -> u8, mark: u8)
    ensures
        all_on_board(squares_holding(at, mark)),
{
    let kept = squares_holding(at, mark);
    assert forall|k: int| 0 <= k < kept.len() implies on_board(#[trigger] kept[k]) by {
        lemma_squares_holding(at, mark, kept[k]);
    }
}

/// Occupancies that agree on the board give the same squares.
pub proof fn lemma_squares_holding_agree(
    at: spec_fn(int, int) -> u8,
    other: spec_fn(int, int) -> u8,
    mark: u8,
)
    requires
        forall|x: int, y: int| 0 <= x < 3 && 0 <= y < 3 ==> #[trigger] at(x, y) == other(x, y),
    ensures
        squares_holding(at, mark) == squares_holding(other, mark),
{
    lemma_prefix_agree(at, other, mark, 9);
    assert(squares().take(9) =~= squares());
}

proof fn lemma_prefix_agree(
    at: spec_fn(int, int) -> u8,
    other: spec_fn(int, int) -> u8,
    mark: u8,
    k: int,
)
    requires
        0 <= k <= 9,
        forall|x: int, y: int| 0 <= x < 3 && 0 <= y < 3 ==> #[trigger] at(x, y) == other(x, y),
    ensures
        squares().take(k).filter(holding(at, mark)) == squares().take(k).filter(
            holding(other, mark),
        ),
    decreases k,
{
    if k == 0 {
        assert(squares().take(0) =~= Seq::<Piece>::empty());
        squares().take(0).lemma_filter_len(holding(at, mark));
        squares().take(0).lemma_filter_len(holding(other, mark));
        assert(squares().take(0).filter(holding(at, mark)) =~= squares().take(0).filter(
            holding(other, mark),
        ));
    } else {
        lemma_prefix_agree(at, other, mark, k - 1);
        let here = squares()[k - 1];
        assert(squares().take(k) =~= squares().take(k - 1).push(here));
        squares().take(k - 1).lemma_filter_push(here, holding(at, mark));
        squares().take(k - 1).lemma_filter_push(here, holding(other, mark));
        assert(at(here.x as int, here.y as int) == other(here.x as int, here.y as int));
    }
}

/// No square is held twice: no player holds a square twice, and no square is
/// held by both.
pub open spec fn one_mark_per_square(first: Seq<Piece>, second: Seq<Piece>) -> bool {
    &&& first.no_duplicates()
    &&& second.no_duplicates()
    &&& forall|i: int, j: int|
        0 <= i < first.len() && 0 <= j < second.len() ==> #[trigger] first[i] != #[trigger] second[j]
}

/// From marks to a matrix and back loses nothing: where no square is held
/// twice and `at` is the occupancy of the matrix made from the marks, the
/// squares found on the matrix are, for each player, the squares it had.
pub proof fn lemma_sparse_round_trip(
    first: Seq<Piece>,
    second: Seq<Piece>,
    at: spec_fn(int, int) -> u8,
)
    requires
        all_on_board(first),
        all_on_board(second),
        one_mark_per_square(first, second),
        forall|x: int, y: int|
            0 <= x < 3 && 0 <= y < 3 ==> #[trigger] at(x, y) == occupant(first, second, x, y),
    ensures
        squares_holding(at, 1).to_set() == first.to_set(),
        squares_holding(at, 2).to_set() == second.to_set(),
{
    assert forall|square: Piece| squares_holding(at, 1).contains(square) <==> first.contains(
        square,
    ) by {
        lemma_squares_holding(at, 1, square);
        if first.contains(square) {
            let i = choose|i: int| 0 <= i < first.len() && first[i] == square;
            assert(on_board(first[i]));
            assert(first[i].x == square.x && first[i].y == square.y);
            if exists|k: int|
                0 <= k < second.len() && #[trigger] second[k].x == square.x && second[k].y
                    == square.y {
                let k = choose|k: int|
                    0 <= k < second.len() && #[trigger] second[k].x == square.x && second[k].y
                        == square.y;
                assert(first[i] == second[k]);
            }
        }
        if on_board(square) && at(square.x as int, square.y as int) == 1 {
            let i = choose|i: int|
                0 <= i < first.len() && #[trigger] first[i].x == square.x && first[i].y
                    == square.y;
            assert(first[i] == square);
        }
    }
    assert forall|square: Piece| squares_holding(at, 2).contains(square) <==> second.contains(
        square,
    ) by {
        lemma_squares_holding(at, 2, square);
        if second.contains(square) {
            let j = choose|j: int| 0 <= j < second.len() && second[j] == square;
            assert(on_board(second[j]));
            assert(second[j].x == square.x && second[j].y == square.y);
        }
        if on_board(square) && at(square.x as int, square.y as int) == 2 {
            let j = choose|j: int|
                0 <= j < second.len() && #[trigger] second[j].x == square.x && second[j].y
                    == square.y;
            assert(second[j] == square);
        }
    }
    assert(squares_holding(at, 1).to_set() =~= first.to_set());
    assert(squares_holding(at, 2).to_set() =~= second.to_set());
}

/// From a matrix to marks and back changes nothing: where every square of
/// the board holds 0, 1 or 2, the marks found on it occupy it as it was.
pub proof fn lemma_dense_round_trip(at: spec_fn(int, int) -> u8, x: int, y: int)
    requires
        0 <= x < 3,
        0 <= y < 3,
        at(x, y) <= 2,
    ensures
        occupant(squares_holding(at, 1), squares_holding(at, 2), x, y) == at(x, y),
{
    let first = squares_holding(at, 1);
    let second = squares_holding(at, 2);
    let here = Piece { x: x as usize, y: y as usize };
    lemma_squares_holding(at, 1, here);
    lemma_squares_holding(at, 2, here);
    if second.contains(here) {
        let k = choose|k: int| 0 <= k < second.len() && second[k] == here;
        assert(second[k].x == x && second[k].y == y);
    }
    if first.contains(here) {
        let k = choose|k: int| 0 <= k < first.len() && first[k] == here;
        assert(first[k].x == x && first[k].y == y);
    }
    if exists|k: int| 0 <= k < second.len() && #[trigger] second[k].x == x && second[k].y == y {
        let k = choose|k: int| 0 <= k < second.len() && #[trigger] second[k].x == x && second[k].y == y;
        assert(second[k] == here);
    }
    if exists|k: int| 0 <= k < first.len() && #[trigger] first[k].x == x && first[k].y == y {
        let k = choose|k: int| 0 <= k < first.len() && #[trigger] first[k].x == x && first[k].y == y;
        assert(first[k] == here);
    }
}

/// Whether a whole column or a whole row of `board` holds `mark`.
fn board_has_line(board: &[[u8; 3]; 3], mark: u8) -> (won: bool)
    ensures
        won == has_line(cells(*board), mark),
{
    let column_0 = board[0][0] == mark && board[0][1] == mark && board[0][2] == mark;
    let column_1 = board[1][0] == mark && board[1][1] == mark && board[1][2] == mark;
    let column_2 = board[2][0] == mark && board[2][1] == mark && board[2][2] == mark;
    let row_0 = board[0][0] == mark && board[1][0] == mark && board[2][0] == mark;
    let row_1 = board[0][1] == mark && board[1][1] == mark && board[2][1] == mark;
    let row_2 = board[0][2] == mark && board[1][2] == mark && board[2][2] == mark;
    column_0 || column_1 || column_2 || row_0 || row_1 || row_2
}

/// Lines are what they are on every occupancy that agrees on the board.
proof fn lemma_has_line_agree(at: spec_fn(int, int) -> u8, other: spec_fn(int, int) -> u8, mark: u8)
    requires
        forall|x: int, y: int| 0 <= x < 3 && 0 <= y < 3 ==> #[trigger] at(x, y) == other(x, y),
    ensures
        has_line(at, mark) == has_line(other, mark),
{
}

/// A copy of `pieces`.
fn copy_pieces(pieces: &Vec<Piece>) -> (copy: Vec<Piece>)
    ensures
        copy@ == pieces@,
{
    let mut copy: Vec<Piece> = Vec::new();
    let mut i: usize = 0;
    while i < pieces.len()
        invariant
            i <= pieces.len(),
            copy@ == pieces@.take(i as int),
        decreases pieces.len() - i,
    {
        copy.push(pieces[i]);
        assert(pieces@.take(i as int + 1) =~= pieces@.take(i as int).push(pieces@[i as int]));
        i = i + 1;
    }
    assert(pieces@.take(i as int) =~= pieces@);
    copy
}

/// Whether every one of `pieces` lies on the board.
fn pieces_on_board(pieces: &Vec<Piece>) -> (yes: bool)
    ensures
        yes == all_on_board(pieces@),
{
    let mut i: usize = 0;
    while i < pieces.len()
        invariant
            i <= pieces.len(),
            forall|k: int| 0 <= k < i ==> on_board(#[trigger] pieces@[k]),
        decreases pieces.len() - i,
    {
        if !(pieces[i].x < BOARD_SIZE && pieces[i].y < BOARD_SIZE) {
            assert(!on_board(pieces@[i as int]));
            return false;
        }
        i = i + 1;
    }
    true
}

impl GameState {
    /// The state before any move.
    pub fn initial() -> (state: GameState)
        ensures
            state@ == GameStateView::initial(),
            state@.wf(),
    {
        let state = GameState {
            moves: Vec::new(),
            player_1: PlayerState::initial(),
            player_2: PlayerState::initial(),
        };
        assert(state@.moves =~= Seq::empty());
        state
    }

    /// A copy of this state.
    pub fn duplicate(&self) -> (copy: GameState)
        ensures
            copy@ == self@,
    {
        GameState {
            moves: crate::game_move::clone_moves(&self.moves),
            player_1: PlayerState {
                pieces: copy_pieces(&self.player_1.pieces),
                resigned: self.player_1.resigned,
                winner: self.player_1.winner,
            },
            player_2: PlayerState {
                pieces: copy_pieces(&self.player_2.pieces),
                resigned: self.player_2.resigned,
                winner: self.player_2.winner,
            },
        }
    }

    /// Whether every mark lies on the board.
    pub fn is_well_formed(&self) -> (yes: bool)
        ensures
            yes == self@.wf(),
    {
        pieces_on_board(&self.player_1.pieces) && pieces_on_board(&self.player_2.pieces)
    }

    /// Whether `next_move` can be applied to this state.
    pub fn can_reduce(&self, game: &Game, next_move: &Move<MoveType>) -> (possible: bool)
        ensures
            possible == self@.can_reduce(game@, next_move@),
    {
        match get_current_player(game, &next_move.author) {
            Ok(_) => match next_move.move_type {
                MoveType::Place { pos } => pos.x < BOARD_SIZE && pos.y < BOARD_SIZE,
            },
            Err(_) => false,
        }
    }
}

/// The state after `next_move`, which is taken to be legal: the mark of its
/// author is placed, and whoever fills a row or a column by it has won. A
/// move onto a square off the board, or by an agent without a seat, cannot
/// be applied.
pub fn state_reducer(game: Game, current_state: GameState, next_move: &Move<MoveType>) -> (next:
    GameState)
    requires
        current_state@.wf(),
        current_state@.can_reduce(game@, next_move@),
    ensures
        next@ == current_state@.reduce(game@, next_move@),
        next@.wf(),
{
    let current_player = get_current_player(&game, &next_move.author).unwrap();
    match next_move.move_type {
        MoveType::Place { pos } => {
            let mut board = board_sparse_to_dense(&current_state);
            let ghost before = board;
            let ghost old_moves = current_state@.moves;
            let mut moves = current_state.moves;
            moves.push(next_move.clone());
            assert(move_views(moves@) =~= old_moves.push(next_move@));
            let mark: u8 = match current_player {
                Player::Player1 => 1,
                Player::Player2 => 2,
            };
            board[pos.x][pos.y] = mark;
            let player_1_victory = board_has_line(&board, 1);
            let player_2_victory = board_has_line(&board, 2);
            let (player_1_pieces, player_2_pieces) = board_dense_to_sparse(board);
            proof {
                let after = placed(current_state@.occupancy(), pos, mark);
                assert forall|x: int, y: int| 0 <= x < 3 && 0 <= y < 3 implies #[trigger] cells(
                    board,
                )(x, y) == after(x, y) by {
                    assert(before[x][y] == current_state@.at(x, y));
                }
                lemma_squares_holding_agree(cells(board), after, 1);
                lemma_squares_holding_agree(cells(board), after, 2);
                lemma_has_line_agree(cells(board), after, 1);
                lemma_has_line_agree(cells(board), after, 2);
                lemma_squares_holding_wf(after, 1);
                lemma_squares_holding_wf(after, 2);
            }
            GameState {
                moves,
                player_1: PlayerState {
                    pieces: player_1_pieces,
                    resigned: false,
                    winner: player_1_victory,
                },
                player_2: PlayerState {
                    pieces: player_2_pieces,
                    resigned: false,
                    winner: player_2_victory,
                },
            }
        },
    }
}

/// What a square that holds `mark` is shown as: the mark of the player, or
/// a blank, and the bar that ends the square.
pub open spec fn square_text(mark: u8) -> Seq<char> {
    if mark == 1 {
        "O|"@
    } else if mark == 2 {
        "X|"@
    } else {
        " |"@
    }
}

/// What begins row `y`: its number and a bar.
pub open spec fn row_label(y: int) -> Seq<char> {
    if y == 0 {
        "0   |"@
    } else if y == 1 {
        "1   |"@
    } else {
        "2   |"@
    }
}

impl GameStateView {
    /// Whose turn it is, as `agent` is told.
    pub open spec fn turn_text(self, agent: Seq<char>) -> Seq<char> {
        if self.moves.len() == 0 {
            "Non-creator must make the first move \n"@
        } else if self.moves.last().author == agent {
            "It is your opponents turn \n"@
        } else {
            "It is your turn \n"@
        }
    }

    /// The first `count` squares of row `y`.
    pub open spec fn squares_text(self, y: int, count: int) -> Seq<char>
        decreases count,
    {
        if count <= 0 {
            Seq::empty()
        } else {
            self.squares_text(y, count - 1) + square_text(self.at(count - 1, y))
        }
    }

    /// Row `y`: its label, its three squares, and the end of the line.
    pub open spec fn row_text(self, y: int) -> Seq<char> {
        row_label(y) + self.squares_text(y, 3) + "\n"@
    }

    /// The first `count` rows.
    pub open spec fn rows_text(self, count: int) -> Seq<char>
        decreases count,
    {
        if count <= 0 {
            Seq::empty()
        } else {
            self.rows_text(count - 1) + self.row_text(count - 1)
        }
    }

    /// How the game ended, or nothing if it has not.
    pub open spec fn ending_text(self) -> Seq<char> {
        if self.player_1.resigned {
            "Game over: Player 1 has resigned!\n"@
        } else if self.player_2.resigned {
            "Game over: Player 2 has resigned!\n"@
        } else if self.player_1.winner {
            "Game over: Player 1 is the winner!\n"@
        } else if self.player_2.winner {
            "Game over: Player 2 is the winner!\n"@
        } else {
            Seq::empty()
        }
    }

    /// The state as text for `agent`: whose turn it is, the board with its
    /// columns and rows numbered, and how the game ended.
    pub open spec fn render(self, agent: Seq<char>) -> Seq<char> {
        "\n"@ + self.turn_text(agent) + "\n"@ + "  x  0 1 2\ny\n"@ + self.rows_text(3)
            + self.ending_text()
    }
}

/// The label of row `y`.
fn row_label_of(y: usize) -> (label: &'static str)
    requires
        y < 3,
    ensures
        label@ == row_label(y as int),
{
    if y == 0 {
        "0   |"
    } else if y == 1 {
        "1   |"
    } else {
        "2   |"
    }
}

impl GameState {
    /// The state as text for `agent`, to show in a terminal.
    pub fn render(&self, agent: &Address) -> (text: String)
        requires
            self@.wf(),
        ensures
            text@ == self@.render(agent@),
    {
        let mut disp = "\n".to_owned();
        let count = self.moves.len();
        if count == 0 {
            disp.append("Non-creator must make the first move \n");
        } else {
            assert(self@.moves.last() == self.moves@[count - 1]@);
            if self.moves[count - 1].author == *agent {
                disp.append("It is your opponents turn \n");
            } else {
                disp.append("It is your turn \n");
            }
        }
        disp.append("\n");
        disp.append("  x  0 1 2\ny\n");
        let board = board_sparse_to_dense(self);
        let ghost head = disp@;
        assert(head =~= "\n"@ + self@.turn_text(agent@) + "\n"@ + "  x  0 1 2\ny\n"@);
        assert(disp@ =~= head + self@.rows_text(0));
        let mut y: usize = 0;
        while y < BOARD_SIZE
            invariant
                y <= 3,
                self@.wf(),
                forall|x: int, y: int|
                    0 <= x < 3 && 0 <= y < 3 ==> #[trigger] board[x][y] == self@.at(x, y),
                disp@ == head + self@.rows_text(y as int),
            decreases 3 - y,
        {
            let ghost above = disp@;
            disp.append(row_label_of(y));
            assert(disp@ =~= above + row_label(y as int) + self@.squares_text(y as int, 0));
            let mut x: usize = 0;
            while x < BOARD_SIZE
                invariant
                    x <= 3,
                    y < 3,
                    forall|x: int, y: int|
                        0 <= x < 3 && 0 <= y < 3 ==> #[trigger] board[x][y] == self@.at(x, y),
                    disp@ == above + row_label(y as int) + self@.squares_text(y as int, x as int),
                decreases 3 - x,
            {
                let mark = board[x][y];
                let ghost left = disp@;
                if mark == 1 {
                    disp.append("O|");
                } else if mark == 2 {
                    disp.append("X|");
                } else {
                    disp.append(" |");
                }
                assert(disp@ =~= left + square_text(self@.at(x as int, y as int)));
                assert(disp@ =~= above + row_label(y as int) + self@.squares_text(
                    y as int,
                    x as int + 1,
                ));
                x = x + 1;
            }
            disp.append("\n");
            assert(disp@ =~= above + self@.row_text(y as int));
            assert(disp@ =~= head + self@.rows_text(y as int + 1));
            y = y + 1;
        }
        if self.player_1.resigned {
            disp.append("Game over: Player 1 has resigned!\n");
        } else if self.player_2.resigned {
            disp.append("Game over: Player 2 has resigned!\n");
        } else if self.player_1.winner {
            disp.append("Game over: Player 1 is the winner!\n");
        } else if self.player_2.winner {
            disp.append("Game over: Player 2 is the winner!\n");
        }
        assert(disp@ =~= head + self@.rows_text(3) + self@.ending_text());
        disp
    }
}

} // verus!
