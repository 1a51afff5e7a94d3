//! The game state and its operations: sowing a pocket, playing a complete
//! turn, listing the complete turns open to the player to move, and scoring.

use vstd::prelude::*;
use crate::rules::{
    in_play, lemma_entry_at_most_total, lemma_in_play_nonneg, lemma_sow_valid, lemma_total_subrange,
    lemma_total_update, lemma_zeros, opposite, play, scatter, sow, sow_error, sown, start_position,
    store, store_difference, swept_difference, total, valid, Position,
};
use crate::turns::{lemma_steps_from, steps, steps_from, turns, turns_after, with_first};

verus! {

/// A pocket: an index into the fourteen slots of the board, in play order.
pub type Pocket = usize;

/// A complete turn: the pockets sown one after another.
pub type Move = Vec<Pocket>;

/// A stone count, or a score.
pub type Score = i32;

/// Slots on the board: six pockets and a store for each player.
pub const BOARD_SIZE: Pocket = 14;
/// Stones in each playing pocket at the start of a game.
pub const STONES: Score = 4;
/// White's store; White's pockets are the six slots before it.
pub const WHITE_POCKET: Pocket = 6;
/// Black's store; Black's pockets are the six slots before it.
pub const BLACK_POCKET: Pocket = 13;

/// Stones on the board at every moment of a game: four in each of the twelve playing pockets.
pub const TOTAL_STONES: Score = 48;

/// Either White's or Black's turn.
#[derive(Debug, Clone, Copy, PartialEq, Eq, Structural)]
pub enum Player {
    White,
    Black,
}

impl Player {
    /// The opponent.
    pub open spec fn other(self) -> Player {
        match self {
            Player::White => Player::Black,
            Player::Black => Player::White,
        }
    }

    fn toggled(&self) -> (r: Player)
        ensures
            r == self.other(),
    {
        match *self {
            Player::White => Player::Black,
            Player::Black => Player::White,
        }
    }
}

/// Why a single sow was refused.
#[derive(Debug, Clone, Copy, PartialEq, Eq, Structural)]
pub enum Error {
    /// The pocket is not one of the mover's six playing pockets.
    IndexError,
    /// The pocket holds no stones.
    EmptyError,
}

/// A position of the game: the stones in each of the fourteen slots and the
/// player to move.
pub struct Node {
    board: Vec<Score>,
    turn: Player,
}

impl View for Node {
    type V = Position;

    closed spec fn view(&self) -> Position {
        Position { board: self.board@.map_values(|v: Score| v as int), turn: self.turn }
    }
}

impl Clone for Node {
    fn clone(&self) -> (r: Node)
        ensures
            r@ == self@,
    {
        let board = self.board.clone();
        assert(board@ =~= self.board@);
        Node { board, turn: self.turn }
    }
}

impl Node {
    /// The node holds a valid board.
    pub open spec fn wf(&self) -> bool {
        valid(self@)
    }

    fn opposite(&self, pocket: Pocket) -> (r: Pocket)
        requires
            pocket <= 12,
        ensures
            r == opposite(pocket as int),
    {
        (BOARD_SIZE - 2) - pocket
    }

    /// Sows the stones of one pocket of the player to move: an extra sow when
    /// the last stone lands in the mover's store, a capture when it lands alone
    /// in one of the mover's pockets, and otherwise the turn passes.
    pub fn sub_move(&mut self, pocket: Pocket) -> (r: Result<(), Error>)
        requires
            old(self).wf(),
        ensures
            final(self).wf(),
            r == (match sow_error(old(self)@, pocket as int) {
                Some(e) => Err(e),
                None => Ok(()),
            }),
            r is Ok ==> final(self)@ == sow(old(self)@, pocket as int),
            r is Err ==> final(self)@ == old(self)@,
    {
        let ghost start = self@;
        let (own_pocket, enemy_pocket, start_index, end_index) = match self.turn {
            Player::White => (WHITE_POCKET, BLACK_POCKET, (BLACK_POCKET + 1) % BOARD_SIZE, WHITE_POCKET),
            Player::Black => (BLACK_POCKET, WHITE_POCKET, (WHITE_POCKET + 1) % BOARD_SIZE, BLACK_POCKET),
        };
        if (pocket < start_index) || (pocket >= end_index) {
            return Err(Error::IndexError);
        }
        if self.board[pocket] == 0 {
            return Err(Error::EmptyError);
        }
        proof {
            lemma_total_update(start.board, pocket as int, 0);
        }
        let mut cursor: Pocket = pocket;
        let mut count: Score = self.board[pocket];
        self.board.set(pocket, 0);
        assert(self@.board =~= start.board.update(pocket as int, 0));
        while count > 0
            invariant
                self.board@.len() == 14,
                self.turn == start.turn,
                cursor < 14,
                0 <= count,
                enemy_pocket == store(start.turn.other()),
                forall|i: int| 0 <= i < 14 ==> 0 <= #[trigger] self@.board[i],
                total(self@.board) + count == TOTAL_STONES,
                scatter(self@.board, cursor as int, count as nat, enemy_pocket as int)
                    == sown(start, pocket as int),
            decreases count,
        {
            let ghost before = self@.board;
            cursor = (cursor + 1) % BOARD_SIZE;
            if cursor == enemy_pocket {
                cursor = (cursor + 1) % BOARD_SIZE;
            }
            proof {
                lemma_entry_at_most_total(before, cursor as int);
                lemma_total_update(before, cursor as int, before[cursor as int] + 1);
            }
            self.board.set(cursor, self.board[cursor] + 1);
            count -= 1;
            assert(self@.board =~= before.update(cursor as int, before[cursor as int] + 1));
        }
        proof {
            lemma_sow_valid(start, pocket as int);
        }
        // the last stone in the mover's own store earns another sow
        if cursor == own_pocket {
            return Ok(());
        }
        // the last stone alone in one of the mover's pockets captures it and
        // the stones facing it
        if self.board[cursor] == 1 && start_index <= cursor && cursor < end_index {
            let ghost b = self@.board;
            let opp = self.opposite(cursor);
            proof {
                lemma_entry_at_most_total(b, opp as int);
                lemma_entry_at_most_total(b, own_pocket as int);
            }
            let gained = self.board[opp] + 1;
            self.board.set(own_pocket, self.board[own_pocket] + gained);
            self.board.set(opp, 0);
            self.board.set(cursor, 0);
            assert(self@.board =~= b.update(own_pocket as int, b[own_pocket as int] + b[opp as int] + 1)
                .update(opp as int, 0).update(cursor as int, 0));
        }
        self.turn = self.turn.toggled();
        Ok(())
    }
}

/// The mathematical values of single sows and their results.
pub open spec fn step_views(r: Seq<(Pocket, Node)>) -> Seq<(usize, Position)> {
    r.map_values(|e: (Pocket, Node)| (e.0, e.1@))
}

/// The mathematical values of complete turns and their results.
pub open spec fn turn_views(r: Seq<(Move, Node)>) -> Seq<(Seq<usize>, Position)> {
    r.map_values(|e: (Move, Node)| (e.0@, e.1@))
}

/// `pocket` followed by the pockets of `rest`.
fn prepend(pocket: Pocket, rest: &Move) -> (r: Move)
    ensures
        r@ == seq![pocket] + rest@,
{
    let mut r: Move = Vec::new();
    r.push(pocket);
    let mut j: usize = 0;
    while j < rest.len()
        invariant
            j <= rest@.len(),
            r@ == seq![pocket] + rest@.take(j as int),
        decreases rest@.len() - j,
    {
        r.push(rest[j]);
        j += 1;
        assert(r@ =~= seq![pocket] + rest@.take(j as int));
    }
    assert(rest@.take(rest@.len() as int) =~= rest@);
    r
}

impl Node {
    /// Each legal single sow, in pocket order, with the node it leads to.
    fn sub_children(&self) -> (r: Vec<(Pocket, Node)>)
        requires
            self.wf(),
        ensures
            step_views(r@) == steps(self@),
            forall|j: int| 0 <= j < r@.len() ==> (#[trigger] r@[j]).1.wf(),
    {
        let mut result: Vec<(Pocket, Node)> = Vec::new();
        let mut pocket: Pocket = 0;
        while pocket < BOARD_SIZE
            invariant
                pocket <= 14,
                self.wf(),
                step_views(result@) + steps_from(self@, pocket as nat) == steps(self@),
                forall|j: int| 0 <= j < result@.len() ==> (#[trigger] result@[j]).1.wf(),
            decreases 14 - pocket,
        {
            let ghost before = result@;
            let mut new_sub_node = self.clone();
            match new_sub_node.sub_move(pocket) {
                Ok(_) => {
                    result.push((pocket, new_sub_node));
                    assert(step_views(result@) =~= step_views(before).push((pocket, sow(self@, pocket as int))));
                    assert(step_views(result@) + steps_from(self@, (pocket + 1) as nat)
                        =~= step_views(before) + steps_from(self@, pocket as nat));
                },
                _ => {},
            };
            pocket += 1;
        }
        assert(step_views(result@) =~= steps(self@));
        result
    }
}

impl Node {
    /// The complete turns from `sub_node`: a sow that passes the turn is one by
    /// itself; one that keeps it is put in front of each complete turn of the
    /// node it leads to.
    fn children_from_sub_node(sub_node: &Node) -> (r: Vec<(Move, Node)>)
        requires
            sub_node.wf(),
        ensures
            turn_views(r@) == turns(sub_node@),
            forall|j: int| 0 <= j < r@.len() ==> (#[trigger] r@[j]).1.wf(),
        decreases in_play(sub_node@.board),
    {
        let ghost pos = sub_node@;
        let subs = sub_node.sub_children();
        proof {
            lemma_steps_from(pos, 0);
            lemma_in_play_nonneg(pos);
        }
        let mut result: Vec<(Move, Node)> = Vec::new();
        let mut i: usize = 0;
        while i < subs.len()
            invariant
                i <= subs@.len(),
                sub_node.wf(),
                pos == sub_node@,
                step_views(subs@) == steps(pos),
                forall|j: int| 0 <= j < subs@.len() ==> (#[trigger] subs@[j]).1.wf(),
                turn_views(result@) + turns_after(pos, i as nat) == turns(pos),
                forall|j: int| 0 <= j < result@.len() ==> (#[trigger] result@[j]).1.wf(),
            decreases subs@.len() - i,
        {
            let pocket = subs[i].0;
            let sub_child = &subs[i].1;
            let ghost before = turn_views(result@);
            assert(steps(pos)[i as int] == (pocket, sub_child@));
            proof {
                lemma_steps_from(pos, 0);
                lemma_sow_valid(pos, pocket as int);
                lemma_in_play_nonneg(sub_child@);
            }
            // a sow that passes the turn ends the turn there
            if sub_child.turn != sub_node.turn {
                let full_move = vec![pocket];
                assert(full_move@ =~= seq![pocket]);
                result.push((full_move, sub_child.clone()));
                assert(turn_views(result@) =~= before + seq![(seq![pocket], sub_child@)]);
            } else {
                let deeper = Self::children_from_sub_node(sub_child);
                let ghost tail = with_first(pocket, turns(sub_child@));
                let mut j: usize = 0;
                while j < deeper.len()
                    invariant
                        j <= deeper@.len(),
                        sub_child.wf(),
                        turn_views(deeper@) == turns(sub_child@),
                        forall|m: int| 0 <= m < deeper@.len() ==> (#[trigger] deeper@[m]).1.wf(),
                        forall|m: int| 0 <= m < result@.len() ==> (#[trigger] result@[m]).1.wf(),
                        tail == with_first(pocket, turns(sub_child@)),
                        turn_views(result@) == before + tail.take(j as int),
                    decreases deeper@.len() - j,
                {
                    assert(turns(sub_child@)[j as int] == (deeper@[j as int].0@, deeper@[j as int].1@));
                    assert(tail[j as int] == (seq![pocket] + deeper@[j as int].0@, deeper@[j as int].1@));
                    let full_move = prepend(pocket, &deeper[j].0);
                    let ghost prev = result@;
                    result.push((full_move, deeper[j].1.clone()));
                    assert(turn_views(result@) =~= turn_views(prev).push(tail[j as int]));
                    assert(tail.take(j + 1) =~= tail.take(j as int).push(tail[j as int]));
                    j += 1;
                    assert(turn_views(result@) =~= before + tail.take(j as int));
                }
                assert(tail.take(deeper@.len() as int) =~= tail);
            }
            i += 1;
            assert(turn_views(result@) + turns_after(pos, i as nat) =~= turns(pos));
        }
        result
    }

    /// The complete turns open to the player to move, in pocket order, each
    /// with the position it leads to; empty when the game is over.
    pub fn children(&self) -> (r: Vec<(Move, Node)>)
        requires
            self.wf(),
        ensures
            turn_views(r@) == turns(self@),
            forall|j: int| 0 <= j < r@.len() ==> (#[trigger] r@[j]).1.wf(),
    {
        Self::children_from_sub_node(self)
    }
}

impl Node {
    /// Plays a complete turn as one step: sows the pockets of `mv` in order.
    /// Where a sow is refused, gives its error and leaves the node as it was.
    pub fn full_move(&mut self, mv: &Move) -> (r: Result<(), Error>)
        requires
            old(self).wf(),
        ensures
            final(self).wf(),
            r == (match play(old(self)@, mv@).1 {
                Some(e) => Err(e),
                None => Ok(()),
            }),
            r is Ok ==> final(self)@ == play(old(self)@, mv@).0,
            r is Err ==> final(self)@ == old(self)@,
    {
        // sow on a copy, kept only once every sow has been accepted
        let mut trial = self.clone();
        let mut i: usize = 0;
        assert(mv@.subrange(0, mv@.len() as int) =~= mv@);
        while i < mv.len()
            invariant
                i <= mv@.len(),
                trial.wf(),
                self.wf(),
                self@ == old(self)@,
                play(trial@, mv@.subrange(i as int, mv@.len() as int)) == play(old(self)@, mv@),
            decreases mv@.len() - i,
        {
            let ghost rest = mv@.subrange(i as int, mv@.len() as int);
            assert(rest.drop_first() =~= mv@.subrange(i + 1, mv@.len() as int));
            assert(rest[0] == mv@[i as int]);
            let ghost cur = trial@;
            match trial.sub_move(mv[i]) {
                Ok(_) => {},
                Err(e) => {
                    assert(sow_error(cur, rest[0] as int) == Some(e));
                    assert(play(cur, rest) == (cur, Some(e)));
                    return Err(e);
                },
            }
            i += 1;
        }
        assert(mv@.subrange(i as int, mv@.len() as int) =~= Seq::<usize>::empty());
        *self = trial;
        Ok(())
    }

    /// The player to move.
    pub fn get_turn(&self) -> (r: &Player)
        ensures
            *r == self@.turn,
    {
        &self.turn
    }

    /// The stones in slot `pocket`.
    pub fn stones(&self, pocket: Pocket) -> (r: Score)
        requires
            self.wf(),
            pocket < BOARD_SIZE,
        ensures
            r == self@.board[pocket as int],
    {
        self.board[pocket]
    }

    /// The mid-game heuristic: White's store less Black's store.
    pub fn eval(&self) -> (r: Score)
        requires
            self.wf(),
        ensures
            r == store_difference(self@),
    {
        proof {
            lemma_entry_at_most_total(self@.board, 6);
            lemma_entry_at_most_total(self@.board, 13);
        }
        self.board[WHITE_POCKET] - self.board[BLACK_POCKET]
    }

    /// The sum of the slots `lo` up to, not including, `hi`.
    fn range_sum(&self, lo: Pocket, hi: Pocket) -> (r: Score)
        requires
            self.wf(),
            lo <= hi <= BOARD_SIZE,
        ensures
            r == total(self@.board.subrange(lo as int, hi as int)),
    {
        let ghost b = self@.board;
        let mut sum: Score = 0;
        let mut i: Pocket = lo;
        assert(b.subrange(lo as int, lo as int) =~= Seq::<int>::empty());
        while i < hi
            invariant
                lo <= i <= hi,
                hi <= 14,
                self.wf(),
                b == self@.board,
                sum == total(b.subrange(lo as int, i as int)),
            decreases hi - i,
        {
            assert(b.subrange(lo as int, i + 1).drop_last() =~= b.subrange(lo as int, i as int));
            proof {
                lemma_total_subrange(b, lo as int, i + 1);
            }
            sum = sum + self.board[i];
            i += 1;
        }
        sum
    }

    /// The final score: each side's store and the stones left on its own
    /// pockets; White's total less Black's.
    pub fn final_score(&self) -> (r: Score)
        requires
            self.wf(),
        ensures
            r == swept_difference(self@),
    {
        proof {
            lemma_total_subrange(self@.board, 0, 7);
            lemma_total_subrange(self@.board, 7, 14);
        }
        let white_score: Score = self.range_sum((BLACK_POCKET + 1) % BOARD_SIZE, WHITE_POCKET + 1);
        let black_score: Score = self.range_sum((WHITE_POCKET + 1) % BOARD_SIZE, BLACK_POCKET + 1);
        white_score - black_score
    }
}

impl Default for Node {
    /// The start of a game.
    fn default() -> (r: Node)
        ensures
            r@ == start_position(),
            r.wf(),
    {
        let mut new_board: Vec<Score> = vec![0; BOARD_SIZE];
        let ghost zeros = new_board@.map_values(|v: Score| v as int);
        assert(zeros.drop_last().drop_last() =~= zeros.subrange(0, 12));
        proof {
            lemma_total_subrange(zeros, 0, 0);
            lemma_zeros(zeros);
        }
        let mut i: Pocket = 0;
        while i < BOARD_SIZE
            invariant
                i <= 14,
                new_board@.len() == 14,
                forall|j: int|
                    0 <= j < 14 ==> #[trigger] new_board@[j] == (if j < i && j != 6 && j != 13 {
                        4int
                    } else {
                        0int
                    }),
                total(new_board@.map_values(|v: Score| v as int)) == 4 * (i - (if i > 6 {
                    1int
                } else {
                    0int
                }) - (if i > 13 {
                    1int
                } else {
                    0int
                })),
            decreases 14 - i,
        {
            let ghost before = new_board@.map_values(|v: Score| v as int);
            if i != WHITE_POCKET && i != BLACK_POCKET {
                new_board.set(i, STONES);
                proof {
                    lemma_total_update(before, i as int, 4);
                }
                assert(new_board@.map_values(|v: Score| v as int) =~= before.update(i as int, 4));
            }
            i += 1;
        }
        let r = Node { board: new_board, turn: Player::White };
        assert(r@.board =~= start_position().board);
        r
    }
}

} // verus!
