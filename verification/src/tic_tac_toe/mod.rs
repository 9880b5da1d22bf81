//! Noughts and crosses, a game with nothing hidden: every state is its own
//! information set.

use vstd::prelude::*;
use crate::cfr::game_model::{
    GamestateSampler, OracleGamestate, PlayerNumber, Probability, UtilityForAllPlayers, VisibleInfo,
    PROBABILITY_ONE,
};

verus! {

#[derive(Debug, Default, Clone, Copy, PartialEq, Eq, Hash, Structural)]
pub enum TicTacToeSquare {
    X,
    O,
    #[default]
    Empty,
}

#[derive(Debug, Clone, Copy, PartialEq, Eq, Hash, Structural)]
pub enum Player {
    X,
    O,
}

impl Player {
    /// The mark the player puts down.
    pub open spec fn spec_mark(&self) -> TicTacToeSquare {
        match self {
            Player::X => TicTacToeSquare::X,
            Player::O => TicTacToeSquare::O,
        }
    }

    pub open spec fn spec_other(&self) -> Player {
        match self {
            Player::X => Player::O,
            Player::O => Player::X,
        }
    }

    pub fn mark(&self) -> (square: TicTacToeSquare)
        ensures
            square == self.spec_mark(),
    {
        match self {
            Player::X => TicTacToeSquare::X,
            Player::O => TicTacToeSquare::O,
        }
    }

    pub fn other(&self) -> (player: Player)
        ensures
            player == self.spec_other(),
    {
        match self {
            Player::X => Player::O,
            Player::O => Player::X,
        }
    }
}

/// Putting the mark `state` on the square `square`.
#[derive(Debug, Clone, Copy, PartialEq, Eq, Hash, Structural)]
pub struct TicTacToeMove {
    pub state: TicTacToeSquare,
    pub square: usize,
}

/// The board, its squares numbered row by row, and whose turn it is.
#[derive(Debug, Clone, Copy, Hash, PartialEq, Eq)]
pub struct TicTacToeBoard {
    pub squares: [TicTacToeSquare; 9],
    pub turn: Player,
}

/// The eight lines of three squares.
pub open spec fn spec_three_in_row() -> Seq<Seq<int>> {
    seq![
        seq![0, 1, 2],
        seq![3, 4, 5],
        seq![6, 7, 8],
        seq![0, 3, 6],
        seq![1, 4, 7],
        seq![2, 5, 8],
        seq![0, 4, 8],
        seq![2, 4, 6],
    ]
}

pub fn three_in_row() -> (lines: [[usize; 3]; 8])
    ensures
        forall|k: int, j: int|
            0 <= k < 8 && 0 <= j < 3 ==> (#[trigger] lines@[k]@[j]) == spec_three_in_row()[k][j]
                && lines@[k]@[j] < 9,
{
    [[0, 1, 2], [3, 4, 5], [6, 7, 8], [0, 3, 6], [1, 4, 7], [2, 5, 8], [0, 4, 8], [2, 4, 6]]
}

/// The player whose marks fill line `k`, if one player's do.
pub open spec fn line_winner(squares: Seq<TicTacToeSquare>, k: int) -> Option<Player> {
    let line = spec_three_in_row()[k];
    let a = squares[line[0]];
    if a == squares[line[1]] && a == squares[line[2]] {
        match a {
            TicTacToeSquare::X => Some(Player::X),
            TicTacToeSquare::O => Some(Player::O),
            TicTacToeSquare::Empty => None,
        }
    } else {
        None
    }
}

/// The player who fills the first filled line among the lines from `k` on.
pub open spec fn winner_from(squares: Seq<TicTacToeSquare>, k: int) -> Option<Player>
    decreases 8 - k,
{
    if k >= 8 || k < 0 {
        None
    } else if line_winner(squares, k) is Some {
        line_winner(squares, k)
    } else {
        winner_from(squares, k + 1)
    }
}

/// The moves of the player with the mark `mark` onto the empty squares
/// among the first `k`, in the order of the squares.
pub open spec fn moves_below(squares: Seq<TicTacToeSquare>, mark: TicTacToeSquare, k: int) -> Seq<
    TicTacToeMove,
>
    decreases k,
{
    if k <= 0 {
        Seq::empty()
    } else if squares[k - 1] == TicTacToeSquare::Empty {
        moves_below(squares, mark, k - 1).push(
            TicTacToeMove { state: mark, square: (k - 1) as usize },
        )
    } else {
        moves_below(squares, mark, k - 1)
    }
}

/// The number of empty squares among the first `k`.
pub open spec fn empty_below(squares: Seq<TicTacToeSquare>, k: int) -> nat
    decreases k,
{
    if k <= 0 {
        0
    } else {
        empty_below(squares, k - 1) + (if squares[k - 1] == TicTacToeSquare::Empty {
            1nat
        } else {
            0nat
        })
    }
}

/// Every move onto the first `k` squares goes onto an empty square among
/// them and puts down the mover's mark.
pub proof fn lemma_moves_below(squares: Seq<TicTacToeSquare>, mark: TicTacToeSquare, k: int)
    requires
        0 <= k <= squares.len(),
        k <= 9,
    ensures
        moves_below(squares, mark, k).len() == empty_below(squares, k),
        moves_below(squares, mark, k).len() <= k,
        forall|i: int|
            0 <= i < moves_below(squares, mark, k).len() ==> {
                &&& (#[trigger] moves_below(squares, mark, k)[i]).square < k
                &&& squares[moves_below(squares, mark, k)[i].square as int] == TicTacToeSquare::Empty
                &&& moves_below(squares, mark, k)[i].state == mark
            },
    decreases k,
{
    if k > 0 {
        lemma_moves_below(squares, mark, k - 1);
        let fewer = moves_below(squares, mark, k - 1);
        let all = moves_below(squares, mark, k);
        assert forall|i: int| 0 <= i < all.len() implies {
            &&& (#[trigger] all[i]).square < k
            &&& squares[all[i].square as int] == TicTacToeSquare::Empty
            &&& all[i].state == mark
        } by {
            if i < fewer.len() {
                assert(all[i] == fewer[i]);
            }
        }
    }
}

/// Marking an empty square leaves one empty square fewer.
pub proof fn lemma_marking_fills(
    squares: Seq<TicTacToeSquare>,
    square: int,
    mark: TicTacToeSquare,
    k: int,
)
    requires
        0 <= square < squares.len(),
        0 <= k <= squares.len(),
        squares[square] == TicTacToeSquare::Empty,
        mark != TicTacToeSquare::Empty,
    ensures
        empty_below(squares.update(square, mark), k) + (if square < k {
            1nat
        } else {
            0nat
        }) == empty_below(squares, k),
    decreases k,
{
    if k > 0 {
        lemma_marking_fills(squares, square, mark, k - 1);
    }
}

impl TicTacToeBoard {
    /// The player who has filled a line, if either has.
    pub open spec fn spec_winner(&self) -> Option<Player> {
        winner_from(self.squares@, 0)
    }

    /// The moves onto the empty squares, none once a line is filled.
    pub open spec fn spec_moves(&self) -> Seq<TicTacToeMove> {
        if self.spec_winner() is Some {
            Seq::empty()
        } else {
            moves_below(self.squares@, self.turn.spec_mark(), 9)
        }
    }

    /// The payoffs once play has ended: all to the winner, or shared
    /// where the board is full and no line is filled.
    pub open spec fn spec_terminal(&self) -> Option<UtilityForAllPlayers> {
        match self.spec_winner() {
            Some(Player::X) => Some(UtilityForAllPlayers { util: [1_000_000_000i64, 0i64, 0i64, 0i64] }),
            Some(Player::O) => Some(UtilityForAllPlayers { util: [0i64, 1_000_000_000i64, 0i64, 0i64] }),
            None => if empty_below(self.squares@, 9) == 0 {
                Some(UtilityForAllPlayers { util: [500_000_000i64, 500_000_000i64, 0i64, 0i64] })
            } else {
                None
            },
        }
    }

    /// The board before the first move.
    pub fn new() -> (board: TicTacToeBoard)
        ensures
            board.turn == Player::X,
            forall|i: int| 0 <= i < 9 ==> #[trigger] board.squares@[i] == TicTacToeSquare::Empty,
    {
        Self {
            squares: [
                TicTacToeSquare::Empty,
                TicTacToeSquare::Empty,
                TicTacToeSquare::Empty,
                TicTacToeSquare::Empty,
                TicTacToeSquare::Empty,
                TicTacToeSquare::Empty,
                TicTacToeSquare::Empty,
                TicTacToeSquare::Empty,
                TicTacToeSquare::Empty,
            ],
            turn: Player::X,
        }
    }

    pub fn winner(&self) -> (winner: Option<Player>)
        ensures
            winner == self.spec_winner(),
    {
        let lines = three_in_row();
        let mut k: usize = 0;
        while k < 8
            invariant
                k <= 8,
                winner_from(self.squares@, 0) == winner_from(self.squares@, k as int),
                forall|i: int, j: int|
                    0 <= i < 8 && 0 <= j < 3 ==> (#[trigger] lines@[i]@[j])
                        == spec_three_in_row()[i][j] && lines@[i]@[j] < 9,
            decreases 8 - k,
        {
            let line = lines[k];
            proof {
                assert(lines@[k as int]@[0] == spec_three_in_row()[k as int][0]);
                assert(lines@[k as int]@[1] == spec_three_in_row()[k as int][1]);
                assert(lines@[k as int]@[2] == spec_three_in_row()[k as int][2]);
            }
            let a_square = self.squares[line[0]];
            let b_square = self.squares[line[1]];
            let c_square = self.squares[line[2]];
            if a_square == b_square && b_square == c_square {
                match a_square {
                    TicTacToeSquare::X => {
                        return Some(Player::X);
                    },
                    TicTacToeSquare::O => {
                        return Some(Player::O);
                    },
                    TicTacToeSquare::Empty => {},
                }
            }
            k += 1;
        }
        None
    }

    pub fn moves(&self) -> (moves: Vec<TicTacToeMove>)
        ensures
            moves@ == self.spec_moves(),
    {
        if self.winner().is_some() {
            return Vec::new();
        }
        let square = self.turn.mark();
        let mut moves: Vec<TicTacToeMove> = Vec::new();
        let mut idx: usize = 0;
        while idx < 9
            invariant
                idx <= 9,
                moves@ == moves_below(self.squares@, square, idx as int),
            decreases 9 - idx,
        {
            if self.squares[idx] == TicTacToeSquare::Empty {
                moves.push(TicTacToeMove { square: idx, state: square });
            }
            idx += 1;
        }
        moves
    }
}

impl Default for TicTacToeBoard {
    fn default() -> (board: TicTacToeBoard)
        ensures
            board.turn == Player::X,
            forall|i: int| 0 <= i < 9 ==> #[trigger] board.squares@[i] == TicTacToeSquare::Empty,
    {
        TicTacToeBoard::new()
    }
}

impl VisibleInfo for TicTacToeBoard {
    type Move = TicTacToeMove;

    open spec fn valid(&self) -> bool {
        true
    }

    open spec fn spec_players_playing(&self) -> PlayerNumber {
        2
    }

    open spec fn spec_turn(&self) -> PlayerNumber {
        match self.turn {
            Player::X => 0,
            Player::O => 1,
        }
    }

    open spec fn terminal_utility(&self) -> Option<UtilityForAllPlayers> {
        self.spec_terminal()
    }

    open spec fn legal_moves(&self) -> Seq<TicTacToeMove> {
        self.spec_moves()
    }

    fn players_playing(&self) -> (n: PlayerNumber) {
        2
    }

    fn turn(&self) -> (t: PlayerNumber) {
        match self.turn {
            Player::X => 0,
            Player::O => 1,
        }
    }

    fn same_info(a: &TicTacToeBoard, b: &TicTacToeBoard) -> (same: bool) {
        let mut i: usize = 0;
        while i < 9
            invariant
                i <= 9,
                forall|j: int| 0 <= j < i ==> a.squares@[j] == b.squares@[j],
            decreases 9 - i,
        {
            if a.squares[i] != b.squares[i] {
                return false;
            }
            i += 1;
        }
        proof {
            assert(a.squares@ =~= b.squares@);
            assert(a.squares == b.squares);
        }
        a.turn == b.turn
    }

    fn same_move(a: &TicTacToeMove, b: &TicTacToeMove) -> (same: bool) {
        a.state == b.state && a.square == b.square
    }

    fn run_for_moves(&self, moves: &mut Vec<TicTacToeMove>) -> (terminal: Option<UtilityForAllPlayers>) {
        match self.winner() {
            Some(Player::X) => {
                let u = UtilityForAllPlayers { util: [1_000_000_000, 0, 0, 0] };
                assert(u.util =~= [1_000_000_000i64, 0i64, 0i64, 0i64]);
                return Some(u);
            },
            Some(Player::O) => {
                let u = UtilityForAllPlayers { util: [0, 1_000_000_000, 0, 0] };
                assert(u.util =~= [0i64, 1_000_000_000i64, 0i64, 0i64]);
                return Some(u);
            },
            None => {},
        }
        let mut found = self.moves();
        proof {
            lemma_moves_below(self.squares@, self.turn.spec_mark(), 9);
        }
        if found.len() == 0 {
            let u = UtilityForAllPlayers { util: [500_000_000, 500_000_000, 0, 0] };
            assert(u.util =~= [500_000_000i64, 500_000_000i64, 0i64, 0i64]);
            return Some(u);
        }
        moves.append(&mut found);
        None
    }
}

impl OracleGamestate<TicTacToeBoard> for TicTacToeBoard {
    open spec fn valid(&self) -> bool {
        true
    }

    open spec fn spec_info(&self) -> TicTacToeBoard {
        *self
    }

    open spec fn spec_advance(&self, m: TicTacToeMove) -> TicTacToeBoard {
        TicTacToeBoard {
            squares: vstd::array::spec_array_update(self.squares, m.square as int, m.state),
            turn: self.turn.spec_other(),
        }
    }

    open spec fn remaining(&self) -> nat {
        empty_below(self.squares@, 9)
    }

    fn info_for_turn_player(&self) -> (info: TicTacToeBoard) {
        *self
    }

    fn players_playing(&self) -> (n: PlayerNumber) {
        2
    }

    fn turn(&self) -> (t: PlayerNumber) {
        match self.turn {
            Player::X => 0,
            Player::O => 1,
        }
    }

    fn advance(&self, m: &TicTacToeMove) -> (next: TicTacToeBoard) {
        broadcast use vstd::array::group_array_axioms;

        proof {
            lemma_moves_below(self.squares@, self.turn.spec_mark(), 9);
            let moves = self.spec_moves();
            let i = choose|i: int| 0 <= i < moves.len() && moves[i] == *m;
            assert(moves[i] == *m);
            lemma_marking_fills(self.squares@, m.square as int, m.state, 9);
        }
        let mut new_squares = self.squares;
        new_squares[m.square] = m.state;
        let next = Self { turn: self.turn.other(), squares: new_squares };
        proof {
            assert(next.squares =~= vstd::array::spec_array_update(
                self.squares,
                m.square as int,
                m.state,
            ));
        }
        next
    }
}

/// Samples the one state a board can be in: the board itself.
#[derive(Debug, Clone, Copy)]
pub struct TicTacToeSampler {
    pub board: TicTacToeBoard,
}

impl GamestateSampler<TicTacToeBoard, TicTacToeBoard> for TicTacToeSampler {
    open spec fn valid(&self) -> bool {
        true
    }

    open spec fn info(&self) -> TicTacToeBoard {
        self.board
    }

    open spec fn reports(&self, probability: Probability) -> bool {
        probability == PROBABILITY_ONE
    }

    /// The board itself, which is all there is to draw, with probability
    /// one.
    fn sample(&mut self) -> (drawn: (TicTacToeBoard, Probability))
        ensures
            *final(self) == *old(self),
            drawn.0 == old(self).board,
            drawn.1 == PROBABILITY_ONE,
    {
        (self.board, PROBABILITY_ONE)
    }
}

} // verus!
