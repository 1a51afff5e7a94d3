//! Complete turns: chains of sows that end when a sow passes the turn, as a
//! mathematical model, and what holds of every turn it lists.

use vstd::prelude::*;
use crate::mancala::Error;
use crate::rules::{
    in_play, legal, lemma_in_play_nonneg, lemma_sow_valid, owns, play, sow, sown, store, total, valid,
    Position,
};

verus! {

/// The single sows open to the player to move from pocket `k` on, in pocket
/// order, each with the position it leads to.
pub open spec fn steps_from(pos: Position, k: nat) -> Seq<(usize, Position)>
    decreases 14 - k,
{
    if k >= 14 {
        seq![]
    } else if legal(pos, k as int) {
        seq![(k as usize, sow(pos, k as int))] + steps_from(pos, k + 1)
    } else {
        steps_from(pos, k + 1)
    }
}

/// The single sows open to the player to move, in pocket order.
pub open spec fn steps(pos: Position) -> Seq<(usize, Position)> {
    steps_from(pos, 0)
}

/// Puts pocket `k` in front of each of the turns `ts`.
pub open spec fn with_first(k: usize, ts: Seq<(Seq<usize>, Position)>) -> Seq<(Seq<usize>, Position)> {
    ts.map_values(|t: (Seq<usize>, Position)| (seq![k] + t.0, t.1))
}

/// The complete turns open to the player to move, each with the position it
/// leads to: a sow that passes the turn is a turn by itself; a sow that lands in
/// the mover's store is followed by each complete turn of the position it
/// leads to. Sows are taken in pocket order, depth first.
pub open spec fn turns(pos: Position) -> Seq<(Seq<usize>, Position)>
    decreases in_play(pos.board), steps(pos).len() + 1,
    when valid(pos)
{
    turns_after(pos, 0)
}

/// The complete turns of `pos` that begin with its `i`-th single sow or a later one.
pub open spec fn turns_after(pos: Position, i: nat) -> Seq<(Seq<usize>, Position)>
    decreases in_play(pos.board), steps(pos).len() - i,
    when valid(pos) && i <= steps(pos).len()
{
    if i >= steps(pos).len() {
        seq![]
    } else {
        let k = steps(pos)[i as int].0;
        let child = steps(pos)[i as int].1;
        proof {
            lemma_steps_from(pos, 0);
            lemma_sow_valid(pos, k as int);
            lemma_in_play_nonneg(child);
        }
        let here = if child.turn != pos.turn {
            seq![(seq![k], child)]
        } else {
            with_first(k, turns(child))
        };
        here + turns_after(pos, i + 1)
    }
}

/// Each single sow listed from pocket `k` on is a legal sow of a pocket at or
/// after `k`, paired with its result.
pub proof fn lemma_steps_from(pos: Position, k: nat)
    ensures
        forall|j: int|
            0 <= j < steps_from(pos, k).len() ==> {
                let st = #[trigger] steps_from(pos, k)[j];
                &&& k <= st.0 < 14
                &&& legal(pos, st.0 as int)
                &&& st.1 == sow(pos, st.0 as int)
            },
    decreases 14 - k,
{
    if k < 14 {
        lemma_steps_from(pos, k + 1);
        if legal(pos, k as int) {
            let rest = steps_from(pos, k + 1);
            let all = steps_from(pos, k);
            assert forall|j: int| 1 <= j < all.len() implies all[j] == rest[j - 1] by {}
        }
    }
}

/// The shape of the turns from the `i`-th single sow on: each is one sow or
/// more, its first sow is legal, it is a single sow exactly when that sow
/// passes the turn, sowing its pockets in order is legal and reaches its
/// position, that position is valid, and the other player is to move there.
pub proof fn lemma_turns_after(pos: Position, i: nat)
    requires
        valid(pos),
        i <= steps(pos).len(),
    ensures
        forall|j: int|
            0 <= j < turns_after(pos, i).len() ==> {
                let t = #[trigger] turns_after(pos, i)[j];
                &&& t.0.len() >= 1
                &&& legal(pos, t.0[0] as int)
                &&& (t.0.len() == 1 <==> sow(pos, t.0[0] as int).turn != pos.turn)
                &&& play(pos, t.0) == (t.1, None::<Error>)
                &&& valid(t.1)
                &&& t.1.turn == pos.turn.other()
            },
    decreases in_play(pos.board), steps(pos).len() - i,
{
    if i < steps(pos).len() {
        let k = steps(pos)[i as int].0;
        let child = steps(pos)[i as int].1;
        lemma_steps_from(pos, 0);
        lemma_sow_valid(pos, k as int);
        lemma_in_play_nonneg(child);
        lemma_turns_after(pos, i + 1);
        let rest = turns_after(pos, i + 1);
        let all = turns_after(pos, i);
        if child.turn != pos.turn {
            let here = seq![(seq![k], child)];
            assert(all == here + rest);
            assert(seq![k].drop_first() =~= Seq::<usize>::empty());
            assert(play(child, Seq::<usize>::empty()) == (child, None::<Error>));
            assert(play(pos, seq![k]) == (child, None::<Error>));
            assert forall|j: int| 0 <= j < all.len() implies {
                let t = #[trigger] all[j];
                &&& t.0.len() >= 1
                &&& legal(pos, t.0[0] as int)
                &&& (t.0.len() == 1 <==> sow(pos, t.0[0] as int).turn != pos.turn)
                &&& play(pos, t.0) == (t.1, None::<Error>)
                &&& valid(t.1)
                &&& t.1.turn == pos.turn.other()
            } by {
                if j >= 1 {
                    assert(all[j] == rest[j - 1]);
                }
            }
        } else {
            lemma_turns_after(child, 0);
            let deeper = turns(child);
            let here = with_first(k, deeper);
            assert(deeper == turns_after(child, 0));
            assert(all == here + rest);
            assert forall|j: int| 0 <= j < all.len() implies {
                let t = #[trigger] all[j];
                &&& t.0.len() >= 1
                &&& legal(pos, t.0[0] as int)
                &&& (t.0.len() == 1 <==> sow(pos, t.0[0] as int).turn != pos.turn)
                &&& play(pos, t.0) == (t.1, None::<Error>)
                &&& valid(t.1)
                &&& t.1.turn == pos.turn.other()
            } by {
                if j < here.len() {
                    let d = deeper[j];
                    assert(turns_after(child, 0)[j] == d);
                    assert(all[j] == (seq![k] + d.0, d.1));
                    assert((seq![k] + d.0).drop_first() =~= d.0);
                    assert((seq![k] + d.0)[0] == k);
                } else {
                    assert(all[j] == rest[j - here.len()]);
                }
            }
        }
    }
}

/// Every generated turn is a complete turn: sowing its pockets in order from
/// the position it was generated from is legal at each sow and reaches the
/// position paired with it, where the other player is to move.
pub proof fn lemma_turns_replay(pos: Position)
    requires
        valid(pos),
    ensures
        forall|j: int|
            0 <= j < turns(pos).len() ==> play(pos, (#[trigger] turns(pos)[j]).0) == (
                turns(pos)[j].1,
                None::<Error>,
            ) && turns(pos)[j].1.turn == pos.turn.other(),
{
    lemma_turns_after(pos, 0);
}

/// Each complete turn keeps every stone on the board.
pub proof fn lemma_turns_conserve(pos: Position)
    requires
        valid(pos),
    ensures
        forall|j: int|
            0 <= j < turns(pos).len() ==> total((#[trigger] turns(pos)[j]).1.board) == total(
                pos.board,
            ),
{
    lemma_turns_after(pos, 0);
}

/// A sow whose last stone lands in the mover's store keeps the turn with the
/// mover, and every complete turn that begins with it goes on with more sows.
pub proof fn lemma_extra_turn(pos: Position, k: int)
    requires
        valid(pos),
        legal(pos, k),
        sown(pos, k).1 == store(pos.turn),
    ensures
        sow(pos, k).turn == pos.turn,
        forall|j: int|
            0 <= j < turns(pos).len() && (#[trigger] turns(pos)[j]).0[0] == k ==> turns(
                pos,
            )[j].0.len() > 1,
{
    lemma_turns_after(pos, 0);
}

/// The game is over for a player to move who has no stones in their own
/// pockets: no complete turn is open.
pub proof fn lemma_no_stones_no_turns(pos: Position)
    requires
        valid(pos),
        forall|i: int| owns(pos.turn, i) ==> #[trigger] pos.board[i] == 0,
    ensures
        turns(pos).len() == 0,
{
    lemma_steps_from(pos, 0);
    if steps(pos).len() > 0 {
        assert(legal(pos, steps(pos)[0].0 as int));
    }
}

} // verus!
