use mancala_ai::mancala::{Error, Move, Node, Player, Score, BOARD_SIZE, BLACK_POCKET, WHITE_POCKET};
use mancala_ai::minimax::minimax;

fn board_total(node: &Node) -> Score {
    (0..BOARD_SIZE).map(|i| node.stones(i)).sum()
}

fn counts(node: &Node) -> Vec<Score> {
    (0..BOARD_SIZE).map(|i| node.stones(i)).collect()
}

fn played(moves: &[usize]) -> Node {
    let mut node = Node::default();
    for &p in moves {
        assert!(node.sub_move(p).is_ok());
    }
    node
}

/// Unpruned minimax, for comparison with the pruning search.
fn plain_minimax(node: &Node, depth: usize) -> Score {
    let children = node.children();
    if children.is_empty() {
        return node.final_score();
    }
    if depth == 0 {
        return node.eval();
    }
    let values = children.iter().map(|(_, child)| plain_minimax(child, depth - 1));
    match node.get_turn() {
        Player::White => values.max().unwrap(),
        Player::Black => values.min().unwrap(),
    }
}

#[test]
fn test_children() {
    let node = Node::default();
    let stones: Score = board_total(&node);
    let children = node.children();
    assert_eq!(children.len(), 10);
    for (_, child) in children {
        let child_stones: Score = board_total(&child);
        assert_eq!(child_stones, stones);
    }
}

#[test]
fn test_display() {
    let node = Node::default();
    let default_string =
"[ 0 ]  ( 4 )  ( 4 )  ( 4 )  ( 4 )  ( 4 )  ( 4 )

       ( 4 )  ( 4 )  ( 4 )  ( 4 )  ( 4 )  ( 4 )  [ 0 ]\nWhite to move";
    assert_eq!(node.to_string(), default_string);
}

#[test]
fn display_after_capture() {
    let node = played(&[2, 0, 12, 2, 8]);
    let expected =
"[ 3 ]  ( 0 )  ( 5 )  ( 5 )  ( 5 )  ( 0 )  ( 4 )

       ( 0 )  ( 6 )  ( 0 )  ( 7 )  ( 7 )  ( 5 )  [ 1 ]\nWhite to move";
    assert_eq!(node.to_string(), expected);
}

#[test]
fn default_position() {
    let node = Node::default();
    for i in 0..BOARD_SIZE {
        let expected = if i == WHITE_POCKET || i == BLACK_POCKET { 0 } else { 4 };
        assert_eq!(node.stones(i), expected);
    }
    assert_eq!(*node.get_turn(), Player::White);
    assert_eq!(board_total(&node), 48);
}

#[test]
fn sow_refuses_pockets_not_owned() {
    let mut node = Node::default();
    for p in [6, 7, 10, 12, 13, 14, 100] {
        assert_eq!(node.sub_move(p), Err(Error::IndexError));
    }
    assert_eq!(counts(&node), counts(&Node::default()));
    assert!(node.sub_move(0).is_ok());
    // now Black moves: White's pockets and both stores are refused
    for p in [0, 5, 6, 13] {
        assert_eq!(node.sub_move(p), Err(Error::IndexError));
    }
}

#[test]
fn sow_refuses_empty_pocket() {
    let mut node = Node::default();
    assert!(node.sub_move(2).is_ok());
    let before = counts(&node);
    assert_eq!(node.sub_move(2), Err(Error::EmptyError));
    assert_eq!(counts(&node), before);
    assert_eq!(*node.get_turn(), Player::White);
}

#[test]
fn sow_into_own_store_keeps_turn() {
    let mut node = Node::default();
    assert!(node.sub_move(2).is_ok());
    assert_eq!(counts(&node), vec![4, 4, 0, 5, 5, 5, 1, 4, 4, 4, 4, 4, 4, 0]);
    assert_eq!(*node.get_turn(), Player::White);
    // every complete turn that opens with pocket 2 goes on with more sows
    let children = Node::default().children();
    let opening_two: Vec<&(Move, Node)> = children.iter().filter(|(m, _)| m[0] == 2).collect();
    assert!(!opening_two.is_empty());
    for (m, _) in opening_two {
        assert!(m.len() > 1);
    }
}

#[test]
fn sow_passes_turn() {
    let mut node = Node::default();
    assert!(node.sub_move(0).is_ok());
    assert_eq!(counts(&node), vec![0, 5, 5, 5, 5, 4, 0, 4, 4, 4, 4, 4, 4, 0]);
    assert_eq!(*node.get_turn(), Player::Black);
}

#[test]
fn sow_skips_opponent_store() {
    // Black's pocket 12 sows into its store, then round to White's pockets
    let node = played(&[2, 0, 12]);
    assert_eq!(counts(&node), vec![1, 6, 2, 6, 6, 5, 1, 4, 4, 4, 4, 4, 0, 1]);
    assert_eq!(*node.get_turn(), Player::White);
    // White's pocket 5 with eight stones passes Black's store by
    let mut node = played(&[2, 0, 12, 2, 8, 4]);
    assert_eq!(counts(&node)[5], 6);
    let before = counts(&node);
    assert_eq!(*node.get_turn(), Player::Black);
    assert!(node.sub_move(9).is_ok());
    assert_eq!(node.stones(WHITE_POCKET), before[WHITE_POCKET]);
}

#[test]
fn capture_takes_facing_pocket() {
    let mut node = played(&[2, 0, 12, 2]);
    assert_eq!(counts(&node), vec![1, 6, 0, 7, 7, 5, 1, 4, 4, 4, 4, 4, 0, 1]);
    assert_eq!(*node.get_turn(), Player::Black);
    // Black's last stone lands alone in the empty pocket 12, facing pocket 0
    assert!(node.sub_move(8).is_ok());
    assert_eq!(node.stones(BLACK_POCKET), 1 + 1 + 1);
    assert_eq!(node.stones(12), 0);
    assert_eq!(node.stones(0), 0);
    assert_eq!(counts(&node), vec![0, 6, 0, 7, 7, 5, 1, 4, 0, 5, 5, 5, 0, 3]);
    assert_eq!(*node.get_turn(), Player::White);
    assert_eq!(board_total(&node), 48);
}

#[test]
fn full_move_applies_generated_turns() {
    let node = Node::default();
    for (mv, child) in node.children() {
        let mut replayed = node.clone();
        assert_eq!(replayed.full_move(&mv), Ok(()));
        assert_eq!(counts(&replayed), counts(&child));
        assert_eq!(replayed.get_turn(), child.get_turn());
        assert_eq!(*child.get_turn(), Player::Black);
    }
}

#[test]
fn children_in_pocket_order() {
    let children = Node::default().children();
    let moves: Vec<Move> = children.iter().map(|(m, _)| m.clone()).collect();
    assert_eq!(
        moves,
        vec![
            vec![0],
            vec![1],
            vec![2, 0],
            vec![2, 1],
            vec![2, 3],
            vec![2, 4],
            vec![2, 5],
            vec![3],
            vec![4],
            vec![5],
        ]
    );
}

#[test]
fn full_move_refused_leaves_node_unchanged() {
    let start = counts(&Node::default());
    let mut node = Node::default();
    assert_eq!(node.full_move(&vec![2, 2, 0]), Err(Error::EmptyError));
    assert_eq!(counts(&node), start);
    assert_eq!(*node.get_turn(), Player::White);
    let mut node = Node::default();
    assert_eq!(node.full_move(&vec![0, 0]), Err(Error::IndexError));
    assert_eq!(counts(&node), start);
    assert_eq!(*node.get_turn(), Player::White);
    let mut node = Node::default();
    assert_eq!(node.full_move(&vec![0, 1]), Err(Error::IndexError));
    assert_eq!(counts(&node), start);
    assert_eq!(*node.get_turn(), Player::White);
    let mut node = Node::default();
    assert_eq!(node.full_move(&vec![]), Ok(()));
    assert_eq!(counts(&node), start);
}

#[test]
fn stones_conserved_through_a_game() {
    let mut node = Node::default();
    let mut turns = 0;
    loop {
        let children = node.children();
        if children.is_empty() {
            break;
        }
        let (mv, _) = &children[turns % children.len()];
        for &p in mv {
            assert!(node.sub_move(p).is_ok());
            assert_eq!(board_total(&node), 48);
        }
        turns += 1;
        assert!(turns < 500);
    }
}

#[test]
fn game_played_to_the_end() {
    let mut node = Node::default();
    let mut turns = 0;
    loop {
        let children = node.children();
        if children.is_empty() {
            break;
        }
        let (mv, child) = &children[0];
        assert_eq!(node.full_move(mv), Ok(()));
        assert_eq!(counts(&node), counts(child));
        turns += 1;
        assert!(turns < 500);
    }
    assert!(node.children().is_empty());
    let c = counts(&node);
    let white: Score = c[0..7].iter().sum();
    let black: Score = c[7..14].iter().sum();
    assert_eq!(white + black, 48);
    assert_eq!(node.final_score(), white - black);
    let mover_side = match node.get_turn() {
        Player::White => &c[0..6],
        Player::Black => &c[7..13],
    };
    assert!(mover_side.iter().all(|&n| n == 0));
    if c[0..6].iter().all(|&n| n == 0) {
        let black_pockets: Score = c[7..13].iter().sum();
        assert_eq!(node.final_score(), c[WHITE_POCKET] - (c[BLACK_POCKET] + black_pockets));
    }
}

#[test]
fn eval_is_store_difference() {
    assert_eq!(Node::default().eval(), 0);
    let node = played(&[2, 0, 12, 2, 8]);
    assert_eq!(node.eval(), 1 - 3);
    assert_eq!(node.final_score(), 26 - 22);
}

#[test]
fn search_depth_zero_is_eval() {
    for node in [Node::default(), played(&[2]), played(&[2, 0, 12, 2, 8])] {
        let mut alpha = Score::MIN;
        let mut beta = Score::MAX;
        let (best, score) = minimax(&node, 0, &mut alpha, &mut beta);
        assert!(best.is_none());
        assert_eq!(score, node.eval());
        assert_eq!((alpha, beta), (Score::MIN, Score::MAX));
    }
    assert_eq!(played(&[2]).eval(), 1);
}

#[test]
fn search_depth_one_is_plain_minimax() {
    for node in [Node::default(), played(&[0]), played(&[2, 0, 12, 2, 8])] {
        let mut alpha = Score::MIN;
        let mut beta = Score::MAX;
        let (best, score) = minimax(&node, 1, &mut alpha, &mut beta);
        assert_eq!(score, plain_minimax(&node, 1));
        let best = best.unwrap();
        let mut after = node.clone();
        assert_eq!(after.full_move(&best), Ok(()));
        assert_eq!(after.eval(), score);
    }
}

#[test]
fn search_picks_earliest_best_turn() {
    let node = Node::default();
    let mut alpha = Score::MIN;
    let mut beta = Score::MAX;
    let (best, score) = minimax(&node, 1, &mut alpha, &mut beta);
    let children = node.children();
    let top = children.iter().map(|(_, c)| c.eval()).max().unwrap();
    assert_eq!(score, top);
    let first = children.iter().find(|(_, c)| c.eval() == top).unwrap();
    assert_eq!(best.unwrap(), first.0);
    assert_eq!(alpha, top);
    assert_eq!(beta, Score::MAX);
}

#[test]
fn search_proposes_a_legal_turn() {
    let node = played(&[0]);
    let mut alpha = Score::MIN;
    let mut beta = Score::MAX;
    let (best, _) = minimax(&node, 4, &mut alpha, &mut beta);
    let best = best.unwrap();
    assert!(node.children().iter().any(|(m, _)| *m == best));
    let mut after = node.clone();
    assert_eq!(after.full_move(&best), Ok(()));
}

#[test]
fn search_on_finished_game_gives_final_score() {
    let mut node = Node::default();
    while let Some((mv, _)) = node.children().into_iter().next() {
        assert_eq!(node.full_move(&mv), Ok(()));
    }
    let mut alpha = Score::MIN;
    let mut beta = Score::MAX;
    let (best, score) = minimax(&node, 3, &mut alpha, &mut beta);
    assert!(best.is_none());
    assert_eq!(score, node.final_score());
}

#[test]
fn final_score_sweeps_black_side_when_white_is_empty() {
    let mut checked = 0;
    for strategy in 0..40usize {
        let mut node = Node::default();
        let mut turns = 0usize;
        loop {
            let children = node.children();
            if children.is_empty() {
                break;
            }
            let pick = (turns * 7 + strategy * 3 + turns * strategy) % children.len();
            assert_eq!(node.full_move(&children[pick].0), Ok(()));
            turns += 1;
            assert!(turns < 500);
        }
        let c = counts(&node);
        if c[0..6].iter().all(|&n| n == 0) {
            let black_pockets: Score = c[7..13].iter().sum();
            assert_eq!(node.final_score(), c[WHITE_POCKET] - (c[BLACK_POCKET] + black_pockets));
            assert_eq!(c.iter().sum::<Score>(), 48);
            checked += 1;
        }
    }
    assert!(checked > 0);
}
