//! The rules of sowing, stated over a mathematical model of the board: what
//! one sow does, when it is refused, and how the game is scored.

use vstd::prelude::*;
use crate::mancala::{Error, Player, TOTAL_STONES};

verus! {

/// The mathematical value of a node: stone counts per slot and the player to move.
pub struct Position {
    pub board: Seq<int>,
    pub turn: Player,
}

/// The store of a player.
pub open spec fn store(p: Player) -> int {
    match p {
        Player::White => 6,
        Player::Black => 13,
    }
}

/// The first of a player's six playing pockets.
pub open spec fn first_pocket(p: Player) -> int {
    match p {
        Player::White => 0,
        Player::Black => 7,
    }
}

/// Whether slot `i` is one of the six playing pockets of `p`.
pub open spec fn owns(p: Player, i: int) -> bool {
    first_pocket(p) <= i < store(p)
}

/// The playing pocket facing pocket `i` across the board.
pub open spec fn opposite(i: int) -> int {
    12 - i
}

/// The sum of a sequence of counts.
pub open spec fn total(s: Seq<int>) -> int
    decreases s.len(),
{
    if s.len() == 0 {
        0
    } else {
        total(s.drop_last()) + s.last()
    }
}

/// Stones not yet in either store.
pub open spec fn in_play(b: Seq<int>) -> int {
    total(b) - b[6] - b[13]
}

/// A board of fourteen non-negative counts holding all the stones of a game.
pub open spec fn valid(pos: Position) -> bool {
    &&& pos.board.len() == 14
    &&& forall|i: int| 0 <= i < 14 ==> 0 <= #[trigger] pos.board[i]
    &&& total(pos.board) == TOTAL_STONES
}

/// The slot after `cursor` when sowing, passing over the slot `skip`.
pub open spec fn next_slot(cursor: int, skip: int) -> int {
    let n = (cursor + 1) % 14;
    if n == skip {
        (n + 1) % 14
    } else {
        n
    }
}

/// Drops `count` stones one by one after `cursor`, passing over `skip`; gives the
/// board and the last slot that received a stone.
pub open spec fn scatter(b: Seq<int>, cursor: int, count: nat, skip: int) -> (Seq<int>, int)
    decreases count,
{
    if count == 0 {
        (b, cursor)
    } else {
        let n = next_slot(cursor, skip);
        scatter(b.update(n, b[n] + 1), n, (count - 1) as nat, skip)
    }
}

/// Why sowing pocket `k` is refused, if it is.
pub open spec fn sow_error(pos: Position, k: int) -> Option<Error> {
    if !owns(pos.turn, k) {
        Some(Error::IndexError)
    } else if pos.board[k] == 0 {
        Some(Error::EmptyError)
    } else {
        None
    }
}

/// Whether the player to move may sow pocket `k`.
pub open spec fn legal(pos: Position, k: int) -> bool {
    sow_error(pos, k) is None
}

/// The board after the stones of pocket `k` are sown, before any capture, and
/// the slot where the last stone landed.
pub open spec fn sown(pos: Position, k: int) -> (Seq<int>, int) {
    scatter(pos.board.update(k, 0), k, pos.board[k] as nat, store(pos.turn.other()))
}

/// The position after sowing pocket `k`: an extra turn when the last stone lands
/// in the mover's store; a capture when it lands alone in one of the mover's
/// pockets; otherwise the turn passes.
pub open spec fn sow(pos: Position, k: int) -> Position {
    let b = sown(pos, k).0;
    let land = sown(pos, k).1;
    let me = pos.turn;
    if land == store(me) {
        Position { board: b, turn: me }
    } else if owns(me, land) && b[land] == 1 {
        let opp = opposite(land);
        Position {
            board: b.update(store(me), b[store(me)] + b[opp] + 1).update(opp, 0).update(land, 0),
            turn: me.other(),
        }
    } else {
        Position { board: b, turn: me.other() }
    }
}

/// The total after one entry is replaced.
pub proof fn lemma_total_update(s: Seq<int>, i: int, v: int)
    requires
        0 <= i < s.len(),
    ensures
        total(s.update(i, v)) == total(s) - s[i] + v,
    decreases s.len(),
{
    if i == s.len() - 1 {
        assert(s.update(i, v).drop_last() =~= s.drop_last());
    } else {
        lemma_total_update(s.drop_last(), i, v);
        assert(s.update(i, v).drop_last() =~= s.drop_last().update(i, v));
    }
}

/// Each entry of non-negative counts is at most their total.
pub proof fn lemma_entry_at_most_total(s: Seq<int>, i: int)
    requires
        0 <= i < s.len(),
        forall|j: int| 0 <= j < s.len() ==> 0 <= #[trigger] s[j],
    ensures
        0 <= s[i] <= total(s),
        0 <= total(s),
    decreases s.len(),
{
    lemma_total_nonneg(s);
    if i < s.len() - 1 {
        lemma_entry_at_most_total(s.drop_last(), i);
    } else {
        lemma_total_nonneg(s.drop_last());
    }
}

/// Counts that are all zero add up to zero.
pub proof fn lemma_zeros(s: Seq<int>)
    requires
        forall|j: int| 0 <= j < s.len() ==> #[trigger] s[j] == 0,
    ensures
        total(s) == 0,
    decreases s.len(),
{
    if s.len() > 0 {
        lemma_zeros(s.drop_last());
    }
}

/// Non-negative counts have a non-negative total.
pub proof fn lemma_total_nonneg(s: Seq<int>)
    requires
        forall|j: int| 0 <= j < s.len() ==> 0 <= #[trigger] s[j],
    ensures
        0 <= total(s),
    decreases s.len(),
{
    if s.len() > 0 {
        lemma_total_nonneg(s.drop_last());
    }
}

/// What sowing does to a board: the total grows by the stones dropped, no
/// count shrinks, the skipped slot is untouched, and the last slot gained a stone.
pub proof fn lemma_scatter(b: Seq<int>, cursor: int, count: nat, skip: int)
    requires
        b.len() == 14,
        0 <= cursor < 14,
        0 <= skip < 14,
    ensures
        scatter(b, cursor, count, skip).0.len() == 14,
        total(scatter(b, cursor, count, skip).0) == total(b) + count,
        forall|i: int| 0 <= i < 14 ==> b[i] <= #[trigger] scatter(b, cursor, count, skip).0[i],
        scatter(b, cursor, count, skip).0[skip] == b[skip],
        0 <= scatter(b, cursor, count, skip).1 < 14,
        count > 0 ==> scatter(b, cursor, count, skip).1 != skip,
        count > 0 ==> scatter(b, cursor, count, skip).0[scatter(b, cursor, count, skip).1]
            >= b[scatter(b, cursor, count, skip).1] + 1,
    decreases count,
{
    if count > 0 {
        let n = next_slot(cursor, skip);
        let b1 = b.update(n, b[n] + 1);
        lemma_total_update(b, n, b[n] + 1);
        lemma_scatter(b1, n, (count - 1) as nat, skip);
    }
}

/// Stones in play never count below zero on a valid board.
pub proof fn lemma_in_play_nonneg(pos: Position)
    requires
        valid(pos),
    ensures
        0 <= in_play(pos.board),
{
    let b = pos.board;
    lemma_total_update(b, 6, 0);
    lemma_total_update(b.update(6, 0), 13, 0);
    lemma_total_nonneg(b.update(6, 0).update(13, 0));
}

/// A legal sow keeps the board valid; one that keeps the turn has dropped a
/// stone into the mover's store, so fewer stones stay in play.
pub proof fn lemma_sow_valid(pos: Position, k: int)
    requires
        valid(pos),
        legal(pos, k),
    ensures
        valid(sow(pos, k)),
        sow(pos, k).turn == pos.turn ==> sown(pos, k).1 == store(pos.turn),
        sow(pos, k).turn == pos.turn ==> in_play(sow(pos, k).board) < in_play(pos.board),
        sow(pos, k).turn != pos.turn ==> sow(pos, k).turn == pos.turn.other(),
{
    let me = pos.turn;
    let c = pos.board[k];
    let b0 = pos.board.update(k, 0);
    lemma_total_update(pos.board, k, 0);
    lemma_scatter(b0, k, c as nat, store(me.other()));
    let b = sown(pos, k).0;
    let land = sown(pos, k).1;
    assert(forall|i: int| 0 <= i < 14 ==> 0 <= #[trigger] b[i]) by {
        assert forall|i: int| 0 <= i < 14 implies 0 <= #[trigger] b[i] by {
            assert(b0[i] <= b[i]);
        }
    }
    if land == store(me) {
    } else if owns(me, land) && b[land] == 1 {
        let st = store(me);
        let opp = opposite(land);
        let b1 = b.update(st, b[st] + b[opp] + 1);
        let b2 = b1.update(opp, 0);
        lemma_total_update(b, st, b[st] + b[opp] + 1);
        lemma_total_update(b1, opp, 0);
        lemma_total_update(b2, land, 0);
    }
}

/// The store-only differential: White's store less Black's.
pub open spec fn store_difference(pos: Position) -> int {
    pos.board[6] - pos.board[13]
}

/// The score once the game is over: each side is credited its store and the
/// stones left in its own pockets; White's total less Black's.
pub open spec fn swept_difference(pos: Position) -> int {
    total(pos.board.subrange(0, 7)) - total(pos.board.subrange(7, 14))
}

/// The position every game starts from: four stones in each playing pocket,
/// empty stores, White to move.
pub open spec fn start_position() -> Position {
    Position { board: Seq::new(14, |i: int| if i == 6 || i == 13 { 0 } else { 4 }), turn: Player::White }
}

/// Sows the pockets of `mv` one after another; stops at the first refused sow,
/// giving the position reached and the error.
pub open spec fn play(pos: Position, mv: Seq<usize>) -> (Position, Option<Error>)
    decreases mv.len(),
{
    if mv.len() == 0 {
        (pos, None)
    } else {
        match sow_error(pos, mv[0] as int) {
            Some(e) => (pos, Some(e)),
            None => play(sow(pos, mv[0] as int), mv.drop_first()),
        }
    }
}

/// The counts of a range of a non-negative board add up to no more than the whole.
pub proof fn lemma_total_subrange(s: Seq<int>, lo: int, hi: int)
    requires
        0 <= lo <= hi <= s.len(),
        forall|j: int| 0 <= j < s.len() ==> 0 <= #[trigger] s[j],
    ensures
        0 <= total(s.subrange(lo, hi)) <= total(s),
    decreases s.len(),
{
    lemma_total_nonneg(s.subrange(lo, hi));
    if s.len() > 0 {
        let d = s.drop_last();
        if hi < s.len() {
            assert(s.subrange(lo, hi) =~= d.subrange(lo, hi));
            lemma_total_subrange(d, lo, hi);
        } else if lo < hi {
            assert(s.subrange(lo, hi).drop_last() =~= d.subrange(lo, hi - 1));
            lemma_total_subrange(d, lo, hi - 1);
        } else {
            lemma_total_nonneg(s);
        }
    }
}

/// Playing any pockets from a valid position, legal or not, leaves a valid board.
pub proof fn lemma_play_valid(pos: Position, mv: Seq<usize>)
    requires
        valid(pos),
    ensures
        valid(play(pos, mv).0),
    decreases mv.len(),
{
    if mv.len() > 0 && legal(pos, mv[0] as int) {
        lemma_sow_valid(pos, mv[0] as int);
        lemma_play_valid(sow(pos, mv[0] as int), mv.drop_first());
    }
}

/// The start position holds four stones in each playing pocket and none in
/// the stores: a valid board.
pub proof fn lemma_start_valid()
    ensures
        valid(start_position()),
{
    let b = start_position().board;
    assert forall|i: int| 0 <= i <= 14 implies #[trigger] total(b.take(i)) == 4 * (i - (if i > 6 {
        1int
    } else {
        0int
    }) - (if i > 13 {
        1int
    } else {
        0int
    })) by {
        lemma_start_prefix(i);
    }
    assert(b.take(14) =~= b);
}

/// The first `i` slots of the start position hold four stones per playing pocket.
proof fn lemma_start_prefix(i: int)
    requires
        0 <= i <= 14,
    ensures
        total(start_position().board.take(i)) == 4 * (i - (if i > 6 {
            1int
        } else {
            0int
        }) - (if i > 13 {
            1int
        } else {
            0int
        })),
    decreases i,
{
    let b = start_position().board;
    if i > 0 {
        lemma_start_prefix(i - 1);
        assert(b.take(i).drop_last() =~= b.take(i - 1));
    }
}

/// Stones are neither made nor lost: after any pockets are sown from the start
/// of a game, and after each sow on the way, the board holds all the stones it
/// started with.
pub proof fn lemma_stones_conserved(mv: Seq<usize>)
    ensures
        forall|i: int|
            0 <= i <= mv.len() ==> total(#[trigger] play(start_position(), mv.take(i)).0.board)
                == TOTAL_STONES,
{
    lemma_start_valid();
    assert forall|i: int| 0 <= i <= mv.len() implies total(
        #[trigger] play(start_position(), mv.take(i)).0.board,
    ) == TOTAL_STONES by {
        lemma_play_valid(start_position(), mv.take(i));
    }
}

/// A capture: when the last stone of a sow lands in an empty pocket of the
/// mover, that pocket and the one facing it are emptied, and the mover's store
/// gains the landing stone and the stones that faced it; the turn passes.
pub proof fn lemma_capture(pos: Position, k: int, p: int)
    requires
        valid(pos),
        legal(pos, k),
        owns(pos.turn, p),
        pos.board[p] == 0,
        sown(pos, k).1 == p,
        sown(pos, k).0[p] == 1,
    ensures
        sow(pos, k).board[store(pos.turn)] == sown(pos, k).0[store(pos.turn)] + 1 + sown(
            pos,
            k,
        ).0[opposite(p)],
        sow(pos, k).board[p] == 0,
        sow(pos, k).board[opposite(p)] == 0,
        forall|i: int|
            0 <= i < 14 && i != p && i != opposite(p) && i != store(pos.turn) ==> #[trigger] sow(
                pos,
                k,
            ).board[i] == sown(pos, k).0[i],
        sow(pos, k).turn == pos.turn.other(),
{
    lemma_total_update(pos.board, k, 0);
    lemma_scatter(pos.board.update(k, 0), k, pos.board[k] as nat, store(pos.turn.other()));
}

/// Once White's pockets are empty the final score is White's store less Black's
/// store and the stones left on Black's pockets.
pub proof fn lemma_sweep_white_empty(pos: Position)
    requires
        valid(pos),
        forall|i: int| 0 <= i < 6 ==> #[trigger] pos.board[i] == 0,
    ensures
        swept_difference(pos) == pos.board[6] - (pos.board[13] + total(pos.board.subrange(7, 13))),
{
    let b = pos.board;
    lemma_zeros(b.subrange(0, 6));
    assert(b.subrange(0, 7).drop_last() =~= b.subrange(0, 6));
    assert(b.subrange(7, 14).drop_last() =~= b.subrange(7, 13));
}

} // verus!
