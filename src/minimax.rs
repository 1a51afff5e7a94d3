use vstd::prelude::*;
use crate::mancala::{turn_views, Move, Node, Player, Score};
use crate::rules::{
    lemma_entry_at_most_total, lemma_total_subrange, store_difference, swept_difference, valid,
    Position,
};
use crate::turns::{lemma_turns_after, turns, turns_after};

verus! {

/// What a search gives back: the best complete turn found (none where the
/// search stopped at the position itself), its score, and the search window
/// as the search left it.
pub struct Outcome {
    pub best: Option<Seq<usize>>,
    pub score: int,
    pub alpha: int,
    pub beta: int,
}

/// The pockets of a turn, if there is one.
pub open spec fn best_view(m: Option<Move>) -> Option<Seq<usize>> {
    match m {
        Some(v) => Some(v@),
        None => None,
    }
}

/// Depth-limited minimax with alpha-beta pruning, the window threaded through
/// every call: a position with no complete turn scores its swept difference; at
/// depth zero, its store difference; otherwise White maximises and Black
/// minimises over the turns in generator order.
pub open spec fn search(pos: Position, depth: nat, alpha: int, beta: int) -> Outcome
    decreases depth, 0int,
{
    if turns(pos).len() == 0 {
        Outcome { best: None, score: swept_difference(pos), alpha, beta }
    } else if depth == 0 {
        Outcome { best: None, score: store_difference(pos), alpha, beta }
    } else if pos.turn == Player::White {
        scan(turns(pos), 0, (depth - 1) as nat, true, i32::MIN as int, seq![], alpha, beta)
    } else {
        scan(turns(pos), 0, (depth - 1) as nat, false, i32::MAX as int, seq![], alpha, beta)
    }
}

/// The search over the turns `kids` from the `i`-th on, with `best` the best
/// score so far, reached by `best_move`. A score replaces the best only when
/// strictly better, so the earliest of equal turns is kept. The maximiser stops
/// once its best is above `beta` and otherwise raises `alpha` to it; the
/// minimiser stops once its best is below `alpha` and otherwise lowers `beta`.
pub open spec fn scan(
    kids: Seq<(Seq<usize>, Position)>,
    i: nat,
    depth: nat,
    maximizing: bool,
    best: int,
    best_move: Seq<usize>,
    alpha: int,
    beta: int,
) -> Outcome
    decreases depth, kids.len() - i + 1,
{
    if i >= kids.len() {
        Outcome { best: Some(best_move), score: best, alpha, beta }
    } else {
        let r = search(kids[i as int].1, depth, alpha, beta);
        if maximizing {
            let b = if r.score > best { r.score } else { best };
            let m = if r.score > best { kids[i as int].0 } else { best_move };
            if b > r.beta {
                Outcome { best: Some(m), score: b, alpha: r.alpha, beta: r.beta }
            } else {
                scan(kids, i + 1, depth, true, b, m, if r.alpha > b { r.alpha } else { b }, r.beta)
            }
        } else {
            let b = if r.score < best { r.score } else { best };
            let m = if r.score < best { kids[i as int].0 } else { best_move };
            if b < r.alpha {
                Outcome { best: Some(m), score: b, alpha: r.alpha, beta: r.beta }
            } else {
                scan(kids, i + 1, depth, false, b, m, r.alpha, if r.beta < b { r.beta } else { b })
            }
        }
    }
}

/// Searches `depth` turns ahead from `node` and gives the best complete turn
/// for the player to move, with its score; no turn where the game is over or
/// `depth` is zero. `alpha` and `beta` are the search window, narrowed in place
/// as the search goes; a search from the top starts with the widest window.
pub fn minimax(node: &Node, depth: usize, alpha: &mut Score, beta: &mut Score) -> (r: (
    Option<Move>,
    Score,
))
    requires
        node.wf(),
    ensures
        best_view(r.0) == search(node@, depth as nat, *old(alpha) as int, *old(beta) as int).best,
        r.1 == search(node@, depth as nat, *old(alpha) as int, *old(beta) as int).score,
        *final(alpha) == search(node@, depth as nat, *old(alpha) as int, *old(beta) as int).alpha,
        *final(beta) == search(node@, depth as nat, *old(alpha) as int, *old(beta) as int).beta,
        r.0 is None <==> (turns(node@).len() == 0 || depth == 0),
        r.0 is Some ==> exists|j: int|
            0 <= j < turns(node@).len() && (#[trigger] turns(node@)[j]).0 == r.0->Some_0@,
    decreases depth,
{
    let ghost target = search(node@, depth as nat, *alpha as int, *beta as int);
    proof {
        lemma_search_proposes_a_turn(node@, depth as nat, *alpha as int, *beta as int);
    }
    let children = node.children();
    if children.len() == 0 {
        return (None, node.final_score());
    }
    if depth == 0 {
        return (None, node.eval());
    }
    let ghost kids = turns(node@);
    match node.get_turn() {
        Player::White => {
            let mut max_score = Score::MIN;
            let mut max_move: Move = vec![];
            assert(max_move@ =~= Seq::<usize>::empty());
            let mut i: usize = 0;
            while i < children.len()
                invariant_except_break
                    scan(kids, i as nat, (depth - 1) as nat, true, max_score as int, max_move@, *alpha as int, *beta as int)
                        == target,
                invariant
                    i <= children@.len(),
                    depth > 0,
                    turn_views(children@) == kids,
                    forall|j: int| 0 <= j < children@.len() ==> (#[trigger] children@[j]).1.wf(),
                ensures
                    target == (Outcome {
                        best: Some(max_move@),
                        score: max_score as int,
                        alpha: *alpha as int,
                        beta: *beta as int,
                    }),
                decreases children@.len() - i,
            {
                assert(kids[i as int] == (children@[i as int].0@, children@[i as int].1@));
                let score = minimax(&children[i].1, depth - 1, alpha, beta).1;
                if score > max_score {
                    max_score = score;
                    max_move = children[i].0.clone();
                    assert(max_move@ =~= children@[i as int].0@);
                }
                if max_score > *beta {
                    break;
                }
                if max_score > *alpha {
                    *alpha = max_score;
                }
                i += 1;
            }
            (Some(max_move), max_score)
        },
        Player::Black => {
            let mut min_score = Score::MAX;
            let mut min_move: Move = vec![];
            assert(min_move@ =~= Seq::<usize>::empty());
            let mut i: usize = 0;
            while i < children.len()
                invariant_except_break
                    scan(kids, i as nat, (depth - 1) as nat, false, min_score as int, min_move@, *alpha as int, *beta as int)
                        == target,
                invariant
                    i <= children@.len(),
                    depth > 0,
                    turn_views(children@) == kids,
                    forall|j: int| 0 <= j < children@.len() ==> (#[trigger] children@[j]).1.wf(),
                ensures
                    target == (Outcome {
                        best: Some(min_move@),
                        score: min_score as int,
                        alpha: *alpha as int,
                        beta: *beta as int,
                    }),
                decreases children@.len() - i,
            {
                assert(kids[i as int] == (children@[i as int].0@, children@[i as int].1@));
                let score = minimax(&children[i].1, depth - 1, alpha, beta).1;
                if score < min_score {
                    min_score = score;
                    min_move = children[i].0.clone();
                    assert(min_move@ =~= children@[i as int].0@);
                }
                if min_score < *alpha {
                    break;
                }
                if min_score < *beta {
                    *beta = min_score;
                }
                i += 1;
            }
            (Some(min_move), min_score)
        },
    }
}

/// The plain minimax value of a position searched `depth` turns ahead, with no
/// pruning: scored as the search scores a position where it stops, otherwise
/// the best of its turns for the player to move.
pub open spec fn minimax_value(pos: Position, depth: nat) -> int
    decreases depth, 0int,
{
    if turns(pos).len() == 0 {
        swept_difference(pos)
    } else if depth == 0 {
        store_difference(pos)
    } else {
        best_value(turns(pos), 0, (depth - 1) as nat, pos.turn == Player::White)
    }
}

/// The best of the minimax values of the turns `kids` from the `i`-th on: the
/// largest for the maximiser, the smallest for the minimiser; the widest score
/// where none is left.
pub open spec fn best_value(kids: Seq<(Seq<usize>, Position)>, i: nat, depth: nat, maximizing: bool) -> int
    decreases depth, kids.len() - i + 1,
{
    if i >= kids.len() {
        if maximizing {
            i32::MIN as int
        } else {
            i32::MAX as int
        }
    } else {
        let v = minimax_value(kids[i as int].1, depth);
        let rest = best_value(kids, i + 1, depth, maximizing);
        if maximizing {
            if v > rest {
                v
            } else {
                rest
            }
        } else {
            if v < rest {
                v
            } else {
                rest
            }
        }
    }
}

/// Where the search stops at a position, its score lies between -48 and 48.
pub proof fn lemma_leaf_bounds(pos: Position)
    requires
        valid(pos),
    ensures
        -48 <= swept_difference(pos) <= 48,
        -48 <= store_difference(pos) <= 48,
{
    lemma_entry_at_most_total(pos.board, 6);
    lemma_entry_at_most_total(pos.board, 13);
    lemma_total_subrange(pos.board, 0, 7);
    lemma_total_subrange(pos.board, 7, 14);
}

/// At depth zero a position that is not over scores its store difference.
pub proof fn lemma_depth_zero_is_heuristic(pos: Position, alpha: int, beta: int)
    requires
        valid(pos),
        turns(pos).len() > 0,
    ensures
        search(pos, 0, alpha, beta).score == store_difference(pos),
        search(pos, 0, alpha, beta).best is None,
{
}

/// A scan one turn deep with a window that never closes (the maximiser's
/// `beta` at its widest, the minimiser's `alpha` at its widest) examines every
/// turn and keeps the best of the current best and their values.
proof fn lemma_scan_one_deep(
    kids: Seq<(Seq<usize>, Position)>,
    i: nat,
    maximizing: bool,
    best: int,
    best_move: Seq<usize>,
    alpha: int,
    beta: int,
)
    requires
        forall|j: int| 0 <= j < kids.len() ==> valid(#[trigger] kids[j].1),
        i32::MIN <= best <= i32::MAX,
        maximizing ==> beta == i32::MAX,
        !maximizing ==> alpha == i32::MIN,
    ensures
        i32::MIN <= best_value(kids, i, 0, maximizing) <= i32::MAX,
        maximizing ==> scan(kids, i, 0, true, best, best_move, alpha, beta).score == (if best
            > best_value(kids, i, 0, true) {
            best
        } else {
            best_value(kids, i, 0, true)
        }),
        !maximizing ==> scan(kids, i, 0, false, best, best_move, alpha, beta).score == (if best
            < best_value(kids, i, 0, false) {
            best
        } else {
            best_value(kids, i, 0, false)
        }),
    decreases kids.len() - i,
{
    if i < kids.len() {
        let child = kids[i as int].1;
        lemma_leaf_bounds(child);
        let r = search(child, 0, alpha, beta);
        assert(r.score == minimax_value(child, 0));
        if maximizing {
            let b = if r.score > best { r.score } else { best };
            let m = if r.score > best { kids[i as int].0 } else { best_move };
            lemma_scan_one_deep(kids, i + 1, true, b, m, if r.alpha > b { r.alpha } else { b }, beta);
        } else {
            let b = if r.score < best { r.score } else { best };
            let m = if r.score < best { kids[i as int].0 } else { best_move };
            lemma_scan_one_deep(kids, i + 1, false, b, m, alpha, if r.beta < b { r.beta } else { b });
        }
    }
}

/// From the widest window, searching no more than one turn deep gives the plain
/// minimax value: there is nothing yet to prune.
pub proof fn lemma_shallow_search_is_minimax(pos: Position, depth: nat)
    requires
        valid(pos),
        depth <= 1,
    ensures
        search(pos, depth, i32::MIN as int, i32::MAX as int).score == minimax_value(pos, depth),
{
    if turns(pos).len() > 0 && depth == 1 {
        lemma_turns_after(pos, 0);
        let kids = turns(pos);
        assert(forall|j: int| 0 <= j < kids.len() ==> valid(#[trigger] kids[j].1)) by {
            assert(kids == turns_after(pos, 0));
        }
        lemma_scan_one_deep(kids, 0, pos.turn == Player::White, if pos.turn == Player::White {
            i32::MIN as int
        } else {
            i32::MAX as int
        }, seq![], i32::MIN as int, i32::MAX as int);
    }
}

/// A search from a valid position scores between -48 and 48, proposes a turn
/// exactly when the game is not over and `depth` is not zero, and the turn it
/// proposes is one of the position's complete turns.
pub proof fn lemma_search_proposes_a_turn(pos: Position, depth: nat, alpha: int, beta: int)
    requires
        valid(pos),
    ensures
        -48 <= search(pos, depth, alpha, beta).score <= 48,
        search(pos, depth, alpha, beta).best is None <==> (turns(pos).len() == 0 || depth == 0),
        search(pos, depth, alpha, beta).best is Some ==> exists|j: int|
            0 <= j < turns(pos).len() && (#[trigger] turns(pos)[j]).0 == search(
                pos,
                depth,
                alpha,
                beta,
            ).best->Some_0,
    decreases depth, 0int,
{
    lemma_leaf_bounds(pos);
    if turns(pos).len() > 0 && depth > 0 {
        lemma_turns_after(pos, 0);
        let kids = turns(pos);
        assert(forall|j: int| 0 <= j < kids.len() ==> valid(#[trigger] kids[j].1)) by {
            assert(kids == turns_after(pos, 0));
        }
        let white = pos.turn == Player::White;
        lemma_scan_proposes_a_turn(kids, 0, (depth - 1) as nat, white, if white {
            i32::MIN as int
        } else {
            i32::MAX as int
        }, seq![], alpha, beta);
    }
}

/// The scan behind a search keeps a score between -48 and 48 once it has
/// examined a turn, and always ends holding one of the turns it examined.
proof fn lemma_scan_proposes_a_turn(
    kids: Seq<(Seq<usize>, Position)>,
    i: nat,
    depth: nat,
    maximizing: bool,
    best: int,
    best_move: Seq<usize>,
    alpha: int,
    beta: int,
)
    requires
        forall|j: int| 0 <= j < kids.len() ==> valid(#[trigger] kids[j].1),
        0 < kids.len(),
        i <= kids.len(),
        (i == 0 && best == (if maximizing {
            i32::MIN as int
        } else {
            i32::MAX as int
        })) || (-48 <= best <= 48 && exists|j: int| 0 <= j < i && (#[trigger] kids[j]).0 == best_move),
    ensures
        -48 <= scan(kids, i, depth, maximizing, best, best_move, alpha, beta).score <= 48,
        scan(kids, i, depth, maximizing, best, best_move, alpha, beta).best is Some,
        exists|j: int|
            0 <= j < kids.len() && (#[trigger] kids[j]).0 == scan(
                kids,
                i,
                depth,
                maximizing,
                best,
                best_move,
                alpha,
                beta,
            ).best->Some_0,
    decreases depth, kids.len() - i + 1,
{
    if i < kids.len() {
        let child = kids[i as int].1;
        lemma_search_proposes_a_turn(child, depth, alpha, beta);
        let r = search(child, depth, alpha, beta);
        let b = if maximizing {
            if r.score > best { r.score } else { best }
        } else {
            if r.score < best { r.score } else { best }
        };
        let m = if (maximizing && r.score > best) || (!maximizing && r.score < best) {
            kids[i as int].0
        } else {
            best_move
        };
        assert(exists|j: int| 0 <= j < i + 1 && (#[trigger] kids[j]).0 == m);
        if maximizing {
            if b <= r.beta {
                lemma_scan_proposes_a_turn(kids, i + 1, depth, true, b, m, if r.alpha > b { r.alpha } else { b }, r.beta);
            }
        } else {
            if b >= r.alpha {
                lemma_scan_proposes_a_turn(kids, i + 1, depth, false, b, m, r.alpha, if r.beta < b { r.beta } else { b });
            }
        }
    }
}

} // verus!
